//! A split from its start to its end, while the tree changes under it.

use crate::laws::effects::{built_page, law_root_split_builds_its_pages,
    law_split_builds_its_pages};
use crate::laws::forest::{found, page_ok};
use crate::laws::history::{can_change, can_grow, grown, Change};
use crate::laws::runs::{aims, answers, extends, is_exchange, lemma_extends_transitive,
    lemma_grown_tree, lemma_growth_keeps_aim, Moment};
use crate::laws::store::is_chain;
use crate::merge::{is_part, split_index};
use crate::page::{base_header, chained_header, Draft, Index, Page, PageHandle, RangeView, NAN_ID,
    ROOT_ID};
use crate::split::{data_draft, is_base_data, is_root_draft, is_split_draft, split_starts, SplitOp,
    SplitStage, SplitTurn};
use crate::turn::{Action, Error, Event, Next};
use std::time::Duration;
use vstd::prelude::*;

verus! {

/// The step is handed what came of the action that the turn before it asked for.
pub open spec fn is_split_step(
    pages: Map<u64, Page>,
    root: Page,
    moments: Seq<Moment>,
    turns: Seq<SplitTurn>,
    i: int,
) -> bool {
    let moment = moments[i];
    let f = grown(root, moment.changes).0;
    &&& can_grow(root, moment.changes)
    &&& i > 0 ==> extends(moments[i - 1].changes, moment.changes)
    &&& turns[i].next matches Next::Run(op, action)
    &&& answers(pages, f, action, moment.event)
    &&& is_exchange(pages, f, action, moment.event)
    &&& op.steps_to(moment.now, moment.event, turns[i + 1])
}

/// A run of a split that has divided the page: it starts, and goes on step by step until it is
/// done. The tree changes as it may.
pub open spec fn is_split_run(
    pages: Map<u64, Page>,
    root: Page,
    at: PageHandle,
    start_at: Duration,
    moments: Seq<Moment>,
    turns: Seq<SplitTurn>,
) -> bool {
    &&& turns.len() == moments.len() + 1
    &&& split_starts(at, start_at, turns[0])
    &&& forall|i: int|
        0 <= i < moments.len() ==> #[trigger] is_split_step(pages, root, moments, turns, i)
    &&& turns.last().next == Next::<SplitOp, Result<(), Error>>::Done(Ok(()))
    &&& turns.len() > 2
}

/// The page that a turn asks to be built.
pub open spec fn drafted(turn: SplitTurn) -> Draft {
    turn.next->Run_1->BuildPage_0
}

/// The size of the page that was built.
pub open spec fn built_size(moment: Moment) -> usize {
    moment.event->Built_size
}

/// The id that the page was given. It led to no page before, and it is not the one that leads
/// to none.
pub open spec fn is_new_id(root: Page, c: Seq<Change>, moment: Moment) -> bool {
    moment.event matches Event::Inserted(id) ==> id != NAN_ID && !grown(root, c).0.has(id)
}

/// The change of the tree that a split of a page below the root makes.
pub open spec fn split_below_root(
    at: PageHandle,
    near: Seq<u8>,
    level: nat,
    i: int,
    moments: Seq<Moment>,
    turns: Seq<SplitTurn>,
) -> Change {
    let header = chained_header((at.page.epoch + 1) as u64, at.page, at.addr);
    Change::Part {
        near,
        level,
        page_id: at.id,
        at: i,
        delta: built_page(drafted(turns[4]), header, built_size(moments[4])),
        half_id: moments[3].event->Inserted_0,
        half: built_page(drafted(turns[2]), base_header(), built_size(moments[2])),
    }
}

/// The change of the tree that a split of the root makes.
pub open spec fn split_of_root(
    i: int,
    moments: Seq<Moment>,
    turns: Seq<SplitTurn>,
) -> Change {
    Change::Raise {
        at: i,
        left_id: moments[3].event->Inserted_0,
        left: built_page(drafted(turns[2]), base_header(), built_size(moments[2])),
        right_id: moments[5].event->Inserted_0,
        right: built_page(drafted(turns[4]), base_header(), built_size(moments[4])),
        root: built_page(drafted(turns[6]), base_header(), built_size(moments[6])),
    }
}

/// A page that stands alone is its whole chain.
proof fn lemma_stands_alone(pages: Map<u64, Page>, addr: u64, chain: Seq<Page>)
    requires
        is_chain(pages, addr, chain),
        chain.len() > 0,
        pages[addr].info.chain_next == 0,
    ensures
        chain == seq![pages[addr]],
{
    let rest = chain.drop_first();
    assert(is_chain(pages, 0, rest));
    assert(chain =~= seq![chain[0]]);
}

/// A turn of a split that asks for something is followed by one more.
proof fn lemma_split_goes_on(
    pages: Map<u64, Page>,
    root: Page,
    at: PageHandle,
    start_at: Duration,
    moments: Seq<Moment>,
    turns: Seq<SplitTurn>,
    k: int,
)
    requires
        is_split_run(pages, root, at, start_at, moments, turns),
        0 <= k < turns.len(),
        turns[k].next is Run,
    ensures
        k < moments.len(),
        can_grow(root, moments[k].changes),
        turns[k].next->Run_0.steps_to(moments[k].now, moments[k].event, turns[k + 1]),
        turns[k].next->Run_1 matches Action::ReadPage(addr, _) ==> moments[k].event is Failed
            || moments[k].event == Event::Page(pages[addr]),
        match turns[k + 1].next {
            Next::Run(_, _) => true,
            Next::Done(result) => result is Ok && k + 2 == turns.len(),
            Next::Halt(_) => false,
        },
{
    assert(turns[turns.len() - 1] == turns.last());
    assert(is_split_step(pages, root, moments, turns, k));
    if !(turns[k + 1].next is Run) && k + 1 < moments.len() {
        assert(is_split_step(pages, root, moments, turns, k + 1));
    }
}

/// How a split divides the page.
proof fn lemma_split_divides(
    pages: Map<u64, Page>,
    root: Page,
    at: PageHandle,
    start_at: Duration,
    moments: Seq<Moment>,
    turns: Seq<SplitTurn>,
)
    requires
        is_split_run(pages, root, at, start_at, moments, turns),
    ensures
        is_base_data(at),
        split_index(pages[at.addr].items) is Some,
        turns.len() > 2,
        turns[1].next matches Next::Run(op, _) && op.at == at && {
            let items = pages[at.addr].items;
            let i = split_index(items)->0;
            &&& op.stage matches SplitStage::Begin { split_key, left, right }
            &&& split_key@ == items.raw(i)
            &&& is_part(left, items, 0, i)
            &&& is_part(right, items, i, items.count() as int)
        },
{
    assert(turns[turns.len() - 1] == turns.last());
    if !(turns[0].next is Run) {
        assert(is_split_step(pages, root, moments, turns, 0));
    }
    lemma_split_goes_on(pages, root, at, start_at, moments, turns, 0);
}

/// What a split of a page below the root has built, and where it lands.
proof fn lemma_split_below_root(
    pages: Map<u64, Page>,
    root: Page,
    at: PageHandle,
    start_at: Duration,
    moments: Seq<Moment>,
    turns: Seq<SplitTurn>,
)
    requires
        is_split_run(pages, root, at, start_at, moments, turns),
        at.id != ROOT_ID,
    ensures
        moments.len() == 6,
        at.page.epoch < u64::MAX,
        moments[5].event is Updated,
        turns[5].next->Run_1 matches Action::UpdatePage { id, old_addr, .. } && id == at.id
            && old_addr == at.addr,
        moments[3].event is Inserted,
        ({
            let tier = at.page.tier;
            let items = pages[at.addr].items;
            let i = split_index(items)->0;
            let half = drafted(turns[2]);
            &&& half == data_draft(tier, half.items)
            &&& is_part(half.items, items, i, items.count() as int)
            &&& is_split_draft(
                drafted(turns[4]),
                tier,
                items.raw(i),
                moments[3].event->Inserted_0,
            )
        }),
{
    lemma_split_divides(pages, root, at, start_at, moments, turns);
    lemma_split_goes_on(pages, root, at, start_at, moments, turns, 1);
    assert(turns[2].next matches Next::Run(op, _) && op.stage is BuildRight);
    lemma_split_goes_on(pages, root, at, start_at, moments, turns, 2);
    assert(turns[3].next matches Next::Run(op, _) && op.stage is InsertRight);
    lemma_split_goes_on(pages, root, at, start_at, moments, turns, 3);
    assert(turns[4].next matches Next::Run(op, _) && op.stage is BuildDelta);
    lemma_split_goes_on(pages, root, at, start_at, moments, turns, 4);
    assert(turns[5].next matches Next::Run(op, _) && op.stage is Update);
    lemma_split_goes_on(pages, root, at, start_at, moments, turns, 5);
}

/// What a split of the root has built, and where it lands.
proof fn lemma_split_of_root(
    pages: Map<u64, Page>,
    root: Page,
    at: PageHandle,
    start_at: Duration,
    moments: Seq<Moment>,
    turns: Seq<SplitTurn>,
)
    requires
        is_split_run(pages, root, at, start_at, moments, turns),
        at.id == ROOT_ID,
    ensures
        moments.len() == 8,
        moments[7].event is Replaced,
        turns[7].next->Run_1 matches Action::ReplacePage { id, old_addr, .. } && id == at.id
            && old_addr == at.addr,
        moments[3].event is Inserted,
        moments[5].event is Inserted,
        ({
            let tier = at.page.tier;
            let items = pages[at.addr].items;
            let i = split_index(items)->0;
            let left = drafted(turns[2]);
            let right = drafted(turns[4]);
            &&& left == data_draft(tier, left.items)
            &&& is_part(left.items, items, 0, i)
            &&& right == data_draft(tier, right.items)
            &&& is_part(right.items, items, i, items.count() as int)
            &&& is_root_draft(
                drafted(turns[6]),
                moments[3].event->Inserted_0,
                items.raw(i),
                moments[5].event->Inserted_0,
            )
        }),
{
    lemma_split_divides(pages, root, at, start_at, moments, turns);
    lemma_split_goes_on(pages, root, at, start_at, moments, turns, 1);
    assert(turns[2].next matches Next::Run(op, _) && op.stage is BuildLeft);
    lemma_split_goes_on(pages, root, at, start_at, moments, turns, 2);
    assert(turns[3].next matches Next::Run(op, _) && op.stage is InsertLeft);
    lemma_split_goes_on(pages, root, at, start_at, moments, turns, 3);
    assert(turns[4].next matches Next::Run(op, _) && op.stage is BuildRight);
    lemma_split_goes_on(pages, root, at, start_at, moments, turns, 4);
    assert(turns[5].next matches Next::Run(op, _) && op.stage is InsertRight);
    lemma_split_goes_on(pages, root, at, start_at, moments, turns, 5);
    assert(turns[6].next matches Next::Run(op, _) && op.stage is BuildRoot);
    lemma_split_goes_on(pages, root, at, start_at, moments, turns, 6);
    assert(turns[7].next matches Next::Run(op, _) && op.stage is Replace);
    lemma_split_goes_on(pages, root, at, start_at, moments, turns, 7);
}

/// The tree only grows while a split goes on.
proof fn lemma_split_extends(
    pages: Map<u64, Page>,
    root: Page,
    at: PageHandle,
    start_at: Duration,
    moments: Seq<Moment>,
    turns: Seq<SplitTurn>,
    k: int,
)
    requires
        is_split_run(pages, root, at, start_at, moments, turns),
        0 <= k < moments.len(),
    ensures
        extends(moments[0].changes, moments[k].changes),
        can_grow(root, moments[k].changes),
    decreases k,
{
    let first = moments[0].changes;
    assert(is_split_step(pages, root, moments, turns, k));
    if k == 0 {
        assert(first =~= first.take(first.len() as int));
    } else {
        lemma_split_extends(pages, root, at, start_at, moments, turns, k - 1);
        lemma_extends_transitive(first, moments[k - 1].changes, moments[k].changes);
    }
}

/// However the tree has changed since the split began: a whole split of a page below the root
/// divides the page as it stands where the split lands, so that it is a change that can be
/// made. A search for some key must have led to the page when the split began.
pub proof fn law_whole_split_parts_the_page(
    pages: Map<u64, Page>,
    root: Page,
    at: PageHandle,
    start_at: Duration,
    moments: Seq<Moment>,
    turns: Seq<SplitTurn>,
    near: Seq<u8>,
    level: nat,
    range: RangeView,
)
    requires
        is_split_run(pages, root, at, start_at, moments, turns),
        at.id != ROOT_ID,
        at.page == pages[at.addr].info,
        ({
            let (f, height) = grown(root, moments[0].changes);
            aims(f, height, near, level, Index { id: at.id, epoch: at.page.epoch }, range)
        }),
        is_new_id(root, moments.last().changes, moments[3]),
    ensures
        moments.len() == 6,
        split_index(pages[at.addr].items) is Some,
        ({
            let (f, height) = grown(root, moments.last().changes);
            let i = split_index(pages[at.addr].items)->0;
            can_change(f, height, split_below_root(at, near, level, i, moments, turns))
        }),
{
    lemma_split_divides(pages, root, at, start_at, moments, turns);
    lemma_split_below_root(pages, root, at, start_at, moments, turns);
    lemma_split_extends(pages, root, at, start_at, moments, turns, 5);
    assert(is_split_step(pages, root, moments, turns, 5));
    let last = moments[5].changes;
    let (f, height) = grown(root, last);
    let index = Index { id: at.id, epoch: at.page.epoch };
    lemma_growth_keeps_aim(root, moments[0].changes, last, near, level, index, range);
    lemma_grown_tree(root, last);
    let page = pages[at.addr];
    assert(page_ok(f.chains[at.id], f.places[at.id]));
    lemma_stands_alone(pages, at.addr, f.chains[at.id]);
    assert(found(f, height, near, level, at.id));
    assert(level < height);
    law_split_builds_its_pages(
        f,
        height,
        near,
        level,
        at,
        split_index(page.items)->0,
        drafted(turns[4]),
        built_size(moments[4]),
        moments[3].event->Inserted_0,
        drafted(turns[2]).items,
        built_size(moments[2]),
    );
}

/// However the tree has changed since the split began: a whole split of the root divides the
/// root as it stands where the split lands, so that it is a change that can be made.
pub proof fn law_whole_split_raises_the_root(
    pages: Map<u64, Page>,
    root: Page,
    at: PageHandle,
    start_at: Duration,
    moments: Seq<Moment>,
    turns: Seq<SplitTurn>,
)
    requires
        is_split_run(pages, root, at, start_at, moments, turns),
        at.id == ROOT_ID,
        at.page == pages[at.addr].info,
        is_new_id(root, moments.last().changes, moments[3]),
        is_new_id(root, moments.last().changes, moments[5]),
        moments[3].event != moments[5].event,
    ensures
        moments.len() == 8,
        split_index(pages[at.addr].items) is Some,
        ({
            let (f, height) = grown(root, moments.last().changes);
            let i = split_index(pages[at.addr].items)->0;
            can_change(f, height, split_of_root(i, moments, turns))
        }),
{
    lemma_split_divides(pages, root, at, start_at, moments, turns);
    lemma_split_of_root(pages, root, at, start_at, moments, turns);
    assert(is_split_step(pages, root, moments, turns, 7));
    let last = moments[7].changes;
    let (f, height) = grown(root, last);
    lemma_grown_tree(root, last);
    let page = pages[at.addr];
    assert(page_ok(f.chains[at.id], f.places[at.id]));
    lemma_stands_alone(pages, at.addr, f.chains[at.id]);
    law_root_split_builds_its_pages(
        f,
        height,
        split_index(page.items)->0,
        moments[3].event->Inserted_0,
        drafted(turns[2]).items,
        built_size(moments[2]),
        moments[5].event->Inserted_0,
        drafted(turns[4]).items,
        built_size(moments[4]),
        drafted(turns[6]),
        built_size(moments[6]),
    );
}

} // verus!
