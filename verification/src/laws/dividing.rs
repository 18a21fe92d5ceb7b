//! Where a page divides, and what becomes of its halves.

use crate::bytes::{lemma_bytes_irreflexive, lemma_bytes_le_lt};
use crate::laws::halves::lemma_raw_order;
use crate::merge::{run_start, split_index};
use crate::page::{position_lt, Index, Items, Page, PageHandle, PageHeader, PageTier, SortedPageKey,
    ROOT_ID};
use crate::split::{split_starts, SplitOp, SplitStage, SplitTurn};
use crate::turn::{Action, CacheOption, Error, Event, Halt, Next};
use std::time::Duration;
use vstd::prelude::*;

verus! {

/// The item in the middle of the page.
pub open spec fn middle(items: Items) -> int {
    items.count() as int / 2
}

/// Up to the middle there is no other key than that of the item in the middle.
pub open spec fn has_one_key_up_to_the_middle(items: Items) -> bool {
    forall|j: int| 0 <= j <= middle(items) ==> #[trigger] items.raw(j) == items.raw(middle(items))
}

/// With the item at `i` the items begin that have the key of the item in the middle.
pub open spec fn is_first_of_the_middle(items: Items, i: int) -> bool {
    &&& 0 < i <= middle(items)
    &&& items.raw(i - 1) != items.raw(i)
    &&& forall|j: int|
        i <= j <= middle(items) ==> #[trigger] items.raw(j) == items.raw(middle(items))
}

/// The two parts, one behind the other, are the whole.
pub open spec fn joins(left: Items, right: Items, whole: Items) -> bool {
    match (left, right, whole) {
        (Items::Values(l), Items::Values(r), Items::Values(w)) => l@ + r@ == w@,
        (Items::Indexes(l), Items::Indexes(r), Items::Indexes(w)) => l@ + r@ == w@,
        _ => false,
    }
}

proof fn lemma_run(items: Items, i: int)
    requires
        0 <= i < items.count(),
    ensures
        ({
            let s = run_start(items, i);
            &&& 0 <= s <= i
            &&& s > 0 ==> items.raw(s - 1) != items.raw(s)
            &&& forall|j: int| s <= j <= i ==> #[trigger] items.raw(j) == items.raw(i)
        }),
    decreases i,
{
    if i > 0 && items.raw(i - 1) == items.raw(i) {
        lemma_run(items, i - 1);
    }
}

/// A page divides where the key of the item in its middle begins, whatever its contents are;
/// it does not divide exactly where no other key comes before that.
pub proof fn law_page_divides_in_the_middle(items: Items)
    ensures
        match split_index(items) {
            Some(i) => is_first_of_the_middle(items, i) && items.count() > 0,
            None => items.count() == 0 || has_one_key_up_to_the_middle(items),
        },
{
    if items.count() > 0 {
        lemma_run(items, middle(items));
    }
}

/// A page in order divides exactly where the key in its middle is not its first one, and then
/// no item before that place has the key.
pub proof fn law_page_in_order_divides(items: Items)
    requires
        items.sorted(),
    ensures
        split_index(items) is Some <==> items.count() > 0 && items.raw(middle(items))
            != items.raw(0),
        split_index(items) matches Some(i) ==> forall|j: int|
            0 <= j < i ==> #[trigger] items.raw(j) != items.raw(middle(items)),
{
    law_page_divides_in_the_middle(items);
    if let Some(i) = split_index(items) {
        let key = items.raw(middle(items));
        assert(items.raw(i) == key);
        lemma_bytes_irreflexive(key);
        assert forall|j: int| 0 <= j < i implies #[trigger] items.raw(j) != key by {
            lemma_raw_order(items, i - 1, i);
            if j < i - 1 {
                lemma_raw_order(items, j, i - 1);
                lemma_bytes_le_lt(items.raw(j), items.raw(i - 1), key);
            }
        }
        assert(items.raw(0) != key);
    } else if items.count() > 0 {
        assert(items.raw(0) == items.raw(middle(items)));
    }
}

/// An inner page with two children or more always divides, and right in the middle.
pub proof fn law_inner_page_always_divides(items: Items)
    requires
        items is Indexes,
        items.sorted(),
        items.count() >= 2,
    ensures
        split_index(items) == Some(items.count() as int / 2),
{
    let v = items->Indexes_0@;
    let m = middle(items);
    law_page_divides_in_the_middle(items);
    lemma_bytes_irreflexive(v[m].0@);
    assert(position_lt(v[m - 1].0.position(), v[m].0.position()));
    assert(items.raw(m - 1) != items.raw(m));
    if split_index(items) is None {
        assert(items.raw(m - 1) == items.raw(m));
    } else {
        let i = split_index(items)->0;
        if i < m {
            assert(items.raw(m - 1) == items.raw(m));
        }
    }
}

/// The page is divided: the left part, the right part and the key with which the right part
/// begins are what the page has before the key in its middle, and from there on.
pub open spec fn is_divided(page: Page, split_key: Seq<u8>, left: Items, right: Items) -> bool {
    &&& joins(left, right, page.items)
    &&& is_first_of_the_middle(page.items, left.count() as int)
    &&& split_key == page.items.raw(left.count() as int)
}

/// A split starts with reading the page, but only a data page that stands alone can be split;
/// a root that is not in its first epoch, or that is not the only page of its chain, is
/// refused.
pub proof fn law_split_reads_the_page(at: PageHandle, now: Duration, turn: SplitTurn)
    requires
        split_starts(at, now, turn),
    ensures
        turn.notes@.len() == 0,
        if !(at.page.kind is Data) || at.page.chain_next != 0 {
            turn.next == Next::<SplitOp, Result<(), Error>>::Done(Err(Error::InvalidArgument))
        } else if at.id == ROOT_ID && (at.page.epoch != 0 || at.page.chain_len != 1) {
            turn.next == Next::<SplitOp, Result<(), Error>>::Halt(Halt::RootNotBase)
        } else {
            turn.next == Next::<SplitOp, Result<(), Error>>::Run(
                SplitOp { at, start_at: now, stage: SplitStage::Read },
                Action::ReadPage(at.addr, CacheOption::Default),
            )
        },
{
}

/// A split that has read the page ends where the page has only one key up to its middle, with
/// nothing to report; else it divides the page and begins a transaction.
pub proof fn law_split_divides_the_page(op: SplitOp, now: Duration, page: Page, turn: SplitTurn)
    requires
        op.stage is Read,
        op.steps_to(now, Event::Page(page), turn),
    ensures
        turn.notes@.len() == 0,
        if page.items.count() == 0 || has_one_key_up_to_the_middle(page.items) {
            turn.next == Next::<SplitOp, Result<(), Error>>::Done(Ok(()))
        } else {
            &&& turn.next matches Next::Run(next, action)
            &&& action is Begin
            &&& next.at == op.at
            &&& next.start_at == op.start_at
            &&& next.stage matches SplitStage::Begin { split_key, left, right }
            &&& is_divided(page, split_key@, left, right)
        },
{
    let items = page.items;
    law_page_divides_in_the_middle(items);
    match split_index(items) {
        Some(i) => {
            assert(items.raw(i - 1) != items.raw(i));
            assert(items.raw(i) == items.raw(middle(items)));
            assert(!has_one_key_up_to_the_middle(items));
            match turn.next {
                Next::Run(next, _) => match next.stage {
                    SplitStage::Begin { split_key, left, right } => {
                        assert(left.count() == i);
                        match (left, right, items) {
                            (Items::Values(l), Items::Values(r), Items::Values(w)) => {
                                assert(l@ + r@ =~= w@);
                            },
                            (Items::Indexes(l), Items::Indexes(r), Items::Indexes(w)) => {
                                assert(l@ + r@ =~= w@);
                            },
                            _ => {},
                        }
                    },
                    _ => {},
                },
                _ => {},
            }
        },
        None => {},
    }
}

/// The turns of a split follow from the events.
pub open spec fn is_split_course(
    at: PageHandle,
    times: Seq<Duration>,
    events: Seq<Event>,
    turns: Seq<SplitTurn>,
) -> bool {
    &&& times.len() == turns.len()
    &&& events.len() + 1 == turns.len()
    &&& split_starts(at, times[0], turns[0])
    &&& forall|i: int|
        0 <= i < events.len() ==> (#[trigger] turns[i].next matches Next::Run(op, _)
            ==> op.steps_to(times[i + 1], events[i], turns[i + 1]))
}

/// The action that a turn asks for.
pub open spec fn asked(turn: SplitTurn) -> Action {
    turn.next->Run_1
}

/// The draft is of a data page of the tier with the items.
pub open spec fn is_data_draft(action: Action, tier: PageTier, items: Items) -> bool {
    action matches Action::BuildPage(draft) && draft.tier == tier && draft.kind is Data
        && draft.items == items
}

/// A split of a page below the root to which nothing happens: the right part is built and
/// gets an id of its own; a page that names the key and the id is put in front of the page,
/// with the next epoch; and the split succeeds.
pub proof fn law_split_goes_through(
    at: PageHandle,
    times: Seq<Duration>,
    events: Seq<Event>,
    turns: Seq<SplitTurn>,
)
    requires
        is_split_course(at, times, events, turns),
        events.len() == 6,
        at.id != ROOT_ID,
        at.page.kind is Data,
        at.page.chain_next == 0,
        at.page.epoch < u64::MAX,
        events[0] matches Event::Page(page) && page.items.count() > 0
            && !has_one_key_up_to_the_middle(page.items),
        events[1] is Begun,
        events[2] is Built,
        events[3] is Inserted,
        events[4] is Built,
        events[5] is Updated,
    ensures
        exists|split_key: Seq<u8>, left: Items, right: Items|
            #![trigger is_divided(events[0]->Page_0, split_key, left, right)]
            {
                &&& is_divided(events[0]->Page_0, split_key, left, right)
                &&& asked(turns[1]) is Begin
                &&& is_data_draft(asked(turns[2]), at.page.tier, right)
                &&& asked(turns[3]) == Action::InsertPage(events[2]->Built_addr)
                &&& asked(turns[4]) matches Action::BuildPage(draft)
                &&& draft.tier == at.page.tier
                &&& draft.kind is Split
                &&& draft.items matches Items::Indexes(v)
                &&& v@.len() == 1
                &&& v@[0].0@ == split_key
                &&& v@[0].1 == (Index { id: events[3]->Inserted_0, epoch: 0 })
            },
        asked(turns[5]) == (Action::UpdatePage {
            id: at.id,
            old_addr: at.addr,
            new_addr: events[4]->Built_addr,
            header: PageHeader {
                epoch: (at.page.epoch + 1) as u64,
                chain_len: if at.page.chain_len == u8::MAX {
                    u8::MAX
                } else {
                    (at.page.chain_len + 1) as u8
                },
                chain_next: at.addr,
            },
        }),
        turns[6].next == Next::<SplitOp, Result<(), Error>>::Done(Ok(())),
{
    law_split_reads_the_page(at, times[0], turns[0]);
    assert(turns[0].next is Run);
    law_split_divides_the_page(turns[0].next->Run_0, times[1], events[0]->Page_0, turns[1]);
    assert(turns[1].next is Run);
    assert(turns[2].next is Run);
    assert(turns[3].next is Run);
    assert(turns[4].next is Run);
    assert(turns[5].next is Run);
    match turns[1].next->Run_0.stage {
        SplitStage::Begin { split_key, left, right } => {
            assert(is_divided(events[0]->Page_0, split_key@, left, right));
        },
        _ => {},
    }
}

/// A split of the root to which nothing happens: both parts are built and get ids of their
/// own; an inner page above them, which sends the keys from the split key on to the right
/// part and all others to the left one, takes the place of the root, which is deallocated;
/// and the split succeeds.
pub proof fn law_root_split_goes_through(
    at: PageHandle,
    times: Seq<Duration>,
    events: Seq<Event>,
    turns: Seq<SplitTurn>,
)
    requires
        is_split_course(at, times, events, turns),
        events.len() == 8,
        at.id == ROOT_ID,
        at.page.kind is Data,
        at.page.chain_next == 0,
        at.page.epoch == 0,
        at.page.chain_len == 1,
        events[0] matches Event::Page(page) && page.items.count() > 0
            && !has_one_key_up_to_the_middle(page.items),
        events[1] is Begun,
        events[2] is Built,
        events[3] is Inserted,
        events[4] is Built,
        events[5] is Inserted,
        events[6] is Built,
        events[7] is Replaced,
    ensures
        exists|split_key: Seq<u8>, left: Items, right: Items|
            #![trigger is_divided(events[0]->Page_0, split_key, left, right)]
            {
                &&& is_divided(events[0]->Page_0, split_key, left, right)
                &&& asked(turns[1]) is Begin
                &&& is_data_draft(asked(turns[2]), at.page.tier, left)
                &&& asked(turns[3]) == Action::InsertPage(events[2]->Built_addr)
                &&& is_data_draft(asked(turns[4]), at.page.tier, right)
                &&& asked(turns[5]) == Action::InsertPage(events[4]->Built_addr)
                &&& asked(turns[6]) matches Action::BuildPage(draft)
                &&& draft.tier is Inner
                &&& draft.kind is Data
                &&& draft.items matches Items::Indexes(v)
                &&& v@.len() == 2
                &&& v@[0].0@.len() == 0
                &&& v@[0].1 == (Index { id: events[3]->Inserted_0, epoch: 0 })
                &&& v@[1].0@ == split_key
                &&& v@[1].1 == (Index { id: events[5]->Inserted_0, epoch: 0 })
            },
        asked(turns[7]) matches Action::ReplacePage {
            id,
            old_addr,
            new_addr,
            header,
            dealloc_addrs,
        } && {
            &&& id == ROOT_ID
            &&& old_addr == at.addr
            &&& new_addr == events[6]->Built_addr
            &&& header == (PageHeader { epoch: 0, chain_len: 1, chain_next: 0 })
            &&& dealloc_addrs@ == seq![at.addr]
        },
        turns[8].next == Next::<SplitOp, Result<(), Error>>::Done(Ok(())),
{
    law_split_reads_the_page(at, times[0], turns[0]);
    assert(turns[0].next is Run);
    law_split_divides_the_page(turns[0].next->Run_0, times[1], events[0]->Page_0, turns[1]);
    assert(turns[1].next is Run);
    assert(turns[2].next is Run);
    assert(turns[3].next is Run);
    assert(turns[4].next is Run);
    assert(turns[5].next is Run);
    assert(turns[6].next is Run);
    assert(turns[7].next is Run);
    match turns[1].next->Run_0.stage {
        SplitStage::Begin { split_key, left, right } => {
            assert(is_divided(events[0]->Page_0, split_key@, left, right));
        },
        _ => {},
    }
}

/// A split whose page was exchanged meanwhile has met a conflict; one that the store fails
/// ends with the failure of the store.
pub proof fn law_split_gives_way(op: SplitOp, now: Duration, event: Event, turn: SplitTurn)
    requires
        op.steps_to(now, event, turn),
    ensures
        turn.next matches Next::Done(Err(e)) ==> {
            ||| {
                &&& e is Again
                &&& op.stage is Update
                &&& event is UpdateLost || event is UpdateMoved
            }
            ||| {
                &&& e is Again
                &&& op.stage is Replace
                &&& event is ReplaceFailed
            }
            ||| event == Event::Failed(e)
        },
        op.stage is Update && (event is UpdateLost || event is UpdateMoved) ==> turn.next
            == Next::<SplitOp, Result<(), Error>>::Done(Err(Error::Again)),
        op.stage is Replace && event is ReplaceFailed ==> turn.next == Next::<
            SplitOp,
            Result<(), Error>,
        >::Done(Err(Error::Again)),
        op.stage is BuildDelta && event is Built && op.at.page.epoch == u64::MAX ==> turn.next
            == Next::<SplitOp, Result<(), Error>>::Halt(Halt::Overflow),
        (op.stage is Read || op.stage is BuildLeft || op.stage is BuildRight
            || op.stage is BuildDelta || op.stage is BuildRoot) ==> (event matches Event::Failed(e)
            ==> turn.next == Next::<SplitOp, Result<(), Error>>::Done(Err(e))),
        turn.next matches Next::Done(Ok(())) ==> op.stage is Read || (op.stage is Update
            && event is Updated) || (op.stage is Replace && event is Replaced),
{
}

} // verus!
