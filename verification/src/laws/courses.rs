//! What operations ask of the store, and how they go on after each answer.

use crate::bytes::{bytes_lt, lemma_bytes_order};
use crate::get::{GetOp, GetStage, GetTurn};
use crate::laws::delta::lemma_page_child;
use crate::laws::finding::law_page_names_the_child;
use crate::laws::upkeep::{is_too_large, one_more};
use crate::lookup::is_cover;
use crate::note::{Counter, Note, Timing};
use crate::page::{Draft, Index, Items, Key, Page, PageHandle, PageHeader, PageInfo, PageKind,
    PageTier, PageView, Range, Value, ROOT_ID};
use crate::reconcile::{reconcile_starts, ReconcileOp, ReconcileStage, ReconcileTurn};
use crate::search::{FindLeafOp, FindLeafTurn, FindStage};
use crate::split::{SplitOp, SplitStage, SplitTurn};
use crate::tree::Options;
use crate::turn::{Action, CacheOption, Error, Event, Halt, Next};
use crate::write::{WriteOp, WriteStage, WriteTurn};
use std::time::Duration;
use vstd::prelude::*;

verus! {

/// The operation is a search for the key that asks for the address of the root.
pub open spec fn is_new_search(op: FindLeafOp, action: Action, key: Seq<u8>) -> bool {
    &&& op.key@ == key
    &&& op.parent is None
    &&& op.stage matches FindStage::Addr { index, range }
    &&& index == (Index { id: ROOT_ID, epoch: 0 })
    &&& range.start@.len() == 0
    &&& range.end is None
    &&& action == Action::PageAddr(ROOT_ID)
}

/// The search begins again, and the conflict is the last thing that it reports.
pub open spec fn searches_again(op: FindLeafOp, turn: FindLeafTurn) -> bool {
    &&& turn.notes@.len() > 0
    &&& turn.notes@.last() == Note::Conflict(Counter::Read)
    &&& turn.next matches Next::Run(next, action)
    &&& is_new_search(next, action, op.key@)
}

/// A search that has looked up the address of a page reads the header there.
pub proof fn law_search_reads_headers(
    op: FindLeafOp,
    options: Options,
    safe_lsn: u64,
    now: Duration,
    addr: u64,
    turn: FindLeafTurn,
)
    requires
        op.stage is Addr,
        op.steps_to(options, safe_lsn, now, Event::Addr(addr), turn),
    ensures
        turn.notes@.len() == 0,
        turn.next matches Next::Run(next, action) && {
            &&& action == Action::ReadPageInfo(addr)
            &&& next.key == op.key
            &&& next.parent == op.parent
            &&& next.stage == (FindStage::Info {
                index: op.stage->Addr_index,
                range: op.stage->Addr_range,
                addr,
            })
        },
{
}

/// A search that has read the header of a page takes it only with the epoch by which it was
/// referred to. It has then found the leaf page, or looks for the child in the inner page. A
/// page with another epoch has been split: its parent is told of that, and then the search
/// begins again; without a parent, or where the split is no longer the newest page, the search
/// begins again at once.
pub proof fn law_search_takes_pages_of_its_epoch(
    op: FindLeafOp,
    options: Options,
    safe_lsn: u64,
    now: Duration,
    page: PageInfo,
    turn: FindLeafTurn,
)
    requires
        op.stage is Info,
        op.steps_to(options, safe_lsn, now, Event::Info(page), turn),
    ensures
        ({
            let index = op.stage->Info_index;
            let addr = op.stage->addr;
            let view = PageView {
                at: PageHandle { id: index.id, addr, page },
                range: Some(op.stage->Info_range),
            };
            if page.epoch == index.epoch {
                match page.tier {
                    PageTier::Leaf => {
                        &&& turn.notes@ == seq![Note::Success(Counter::Read)]
                        &&& turn.next matches Next::Done(Ok((found, parent)))
                        &&& found == view
                        &&& parent == op.parent
                    },
                    PageTier::Inner => {
                        &&& turn.notes@.len() == 0
                        &&& addr == 0 ==> turn.next is Halt && turn.next->Halt_0
                            == Halt::ChildMissing
                        &&& addr != 0 ==> {
                            &&& turn.next matches Next::Run(next, action)
                            &&& next == (FindLeafOp {
                                key: op.key,
                                parent: op.parent,
                                stage: FindStage::Child { view },
                            })
                            &&& action == Action::ReadPage(addr, CacheOption::Default)
                        }
                    },
                }
            } else if page.kind is Split && op.parent is Some {
                &&& turn.notes@.len() == 0
                &&& turn.next matches Next::Run(next, action)
                &&& next.key == op.key
                &&& next.stage matches FindStage::Reconcile(reconciliation)
                &&& reconciliation.at == view.at
                &&& reconciliation.parent == (op.parent->0).at
                &&& reconciliation.stage == (ReconcileStage::Read { range: op.stage->Info_range })
                &&& action == Action::ReadPage(addr, CacheOption::Default)
            } else {
                &&& searches_again(op, turn)
                &&& turn.notes@ == if page.kind is Split {
                    seq![Note::Conflict(Counter::Read)]
                } else {
                    seq![Note::Success(Counter::ReconcilePage), Note::Conflict(Counter::Read)]
                }
            }
        }),
{
}

/// A search that reads the pages of an inner chain goes on to the page behind where a page
/// names no child, and says so where there is none; to a child that a page names it goes on
/// with the page as its parent, for the range from the key of the child to the next key in
/// that page, or to the end of the parent where there is none.
pub proof fn law_search_goes_down(
    op: FindLeafOp,
    options: Options,
    safe_lsn: u64,
    now: Duration,
    page: Page,
    i: int,
    turn: FindLeafTurn,
)
    requires
        op.stage is Child,
        page.wf(),
        page.info.kind is Data,
        page.items is Indexes,
        0 <= i < page.items.count(),
        !bytes_lt(op.key@, page.items.raw(i)),
        i + 1 < page.items.count() ==> bytes_lt(op.key@, page.items.raw(i + 1)),
        op.steps_to(options, safe_lsn, now, Event::Page(page), turn),
    ensures
        turn.notes@.len() == 0,
        ({
            let child = page.items->Indexes_0@[i].1;
            if child == (Index { id: 0, epoch: 0 }) {
                if page.info.chain_next == 0 {
                    turn.next == Next::<
                        FindLeafOp,
                        Result<(PageView, Option<PageView>), Error>,
                    >::Halt(Halt::ChildMissing)
                } else {
                    turn.next == Next::<
                        FindLeafOp,
                        Result<(PageView, Option<PageView>), Error>,
                    >::Run(
                        op,
                        Action::ReadPage(page.info.chain_next, CacheOption::Default),
                    )
                }
            } else {
                &&& turn.next matches Next::Run(next, action)
                &&& next.key == op.key
                &&& next.parent == Some(op.stage->view)
                &&& next.stage matches FindStage::Addr { index, range }
                &&& index == child
                &&& range.start@ == page.items.raw(i)
                &&& range@.end == if i + 1 < page.items.count() {
                    Some(page.items.raw(i + 1))
                } else {
                    match op.stage->view.range {
                        Some(outer) => outer@.end,
                        None => None,
                    }
                }
                &&& action == Action::PageAddr(child.id)
            }
        }),
{
    lemma_bytes_order(page.items.raw(i), op.key@);
    let items = page.items->Indexes_0@;
    assert(is_cover(items, op.key@, i));
    lemma_page_child(page, op.key@, i);
}

/// A search passes over the pages of an inner chain that announce a split, and over those in
/// which all keys come after its own.
pub proof fn law_search_passes_over_pages_without_a_child(
    op: FindLeafOp,
    options: Options,
    safe_lsn: u64,
    now: Duration,
    page: Page,
    turn: FindLeafTurn,
)
    requires
        op.stage is Child,
        page.wf(),
        page.info.kind is Split || page.items is Values || page.items.count() == 0 || bytes_lt(
            op.key@,
            page.items.raw(0),
        ),
        op.steps_to(options, safe_lsn, now, Event::Page(page), turn),
    ensures
        turn.notes@.len() == 0,
        page.info.chain_next == 0 ==> turn.next is Halt && turn.next->Halt_0 == Halt::ChildMissing,
        page.info.chain_next != 0 ==> turn.next == Next::<
            FindLeafOp,
            Result<(PageView, Option<PageView>), Error>,
        >::Run(op, Action::ReadPage(page.info.chain_next, CacheOption::Default)),
{
    law_page_names_the_child(page, op.key@);
}

/// A failure of the store that is a conflict makes a search begin again; any other one ends it.
/// Once the parent has been told of a split, or could not be told, the search begins again.
pub proof fn law_search_begins_again_after_conflicts(
    op: FindLeafOp,
    options: Options,
    safe_lsn: u64,
    now: Duration,
    event: Event,
    turn: FindLeafTurn,
)
    requires
        op.steps_to(options, safe_lsn, now, event, turn),
    ensures
        (op.stage is Info || op.stage is Child) ==> (event matches Event::Failed(e) ==> if e
            is Again {
            searches_again(op, turn) && turn.notes@.len() == 1
        } else {
            turn.next == Next::<FindLeafOp, Result<(PageView, Option<PageView>), Error>>::Done(
                Err(e),
            ) && turn.notes@.len() == 0
        }),
        op.stage matches FindStage::Reconcile(reconciliation) ==> exists|inner: ReconcileTurn|
            #[trigger] reconciliation.steps_to(options, safe_lsn, now, event, inner)
                && match inner.next {
                Next::Run(going, asked) => turn.next matches Next::Run(next, action)
                    && next.key == op.key && next.stage == FindStage::Reconcile(going) && action
                    == asked && turn.notes@ == inner.notes@,
                Next::Done(_) => searches_again(op, turn) && turn.notes@ == inner.notes@.push(
                    Note::Conflict(Counter::Read),
                ),
                Next::Halt(halt) => turn.next == Next::<
                    FindLeafOp,
                    Result<(PageView, Option<PageView>), Error>,
                >::Halt(halt),
            },
{
}

/// The draft is of a leaf page with one version: the key with its number, and the value.
pub open spec fn is_single_version(draft: Draft, key: Key, value: Value) -> bool {
    &&& draft.tier == PageTier::Leaf
    &&& draft.kind == PageKind::Data
    &&& draft.items matches Items::Values(v)
    &&& v@.len() == 1
    &&& v@[0].0.raw@ == key.raw@
    &&& v@[0].0.lsn == key.lsn
    &&& match (v@[0].1, value) {
        (Value::Put(a), Value::Put(b)) => a@ == b@,
        (Value::Delete, Value::Delete) => true,
        _ => false,
    }
}

/// The action is to put the page at `new_addr` in front of the leaf page, without a change of
/// its epoch.
pub open spec fn puts_in_front(action: Action, at: PageHandle, new_addr: u64) -> bool {
    action == (Action::UpdatePage {
        id: at.id,
        old_addr: at.addr,
        new_addr,
        header: PageHeader {
            epoch: at.page.epoch,
            chain_len: one_more(at.page.chain_len) as u8,
            chain_next: at.addr,
        },
    })
}

/// The write begins again with a search from the root, and the conflict is the last thing that
/// it reports.
pub open spec fn writes_again(op: WriteOp, now: Duration, turn: WriteTurn) -> bool {
    &&& turn.notes@.len() > 0
    &&& turn.notes@.last() == Note::Conflict(Counter::Write)
    &&& turn.next matches Next::Run(next, action)
    &&& next.key == op.key
    &&& next.value == op.value
    &&& next.start_at == op.start_at
    &&& next.stage matches WriteStage::Find { search, before }
    &&& before == now
    &&& is_new_search(search, action, op.key.raw@)
}

/// A write that has found its leaf page begins a transaction, unless the page is too large and
/// stands alone: then it first reads the page to divide it. A root that is too large must have
/// no epoch.
pub proof fn law_write_takes_the_leaf_page(
    op: WriteOp,
    options: Options,
    safe_lsn: u64,
    now: Duration,
    page: PageInfo,
    turn: WriteTurn,
)
    requires
        op.stage is Find,
        op.stage->search.stage is Info,
        op.stage->search.stage->addr != 0,
        page.epoch == op.stage->search.stage->Info_index.epoch,
        page.tier is Leaf,
        op.steps_to(options, safe_lsn, now, Event::Info(page), turn),
    ensures
        ({
            let search = op.stage->search.stage;
            let at = PageHandle { id: search->Info_index.id, addr: search->addr, page };
            let divides = is_too_large(options, PageTier::Leaf, page.size as int)
                && page.chain_next == 0 && page.kind is Data;
            if divides && at.id == ROOT_ID && (page.epoch != 0 || page.chain_len != 1) {
                turn.next == Next::<WriteOp, Result<(), Error>>::Halt(Halt::RootNotBase)
            } else {
                &&& turn.notes@ == seq![
                    Note::Success(Counter::Read),
                    Note::Time(Timing::FindLeaf, op.stage->before, now),
                ]
                &&& turn.next matches Next::Run(next, action)
                &&& next.key == op.key
                &&& next.value == op.value
                &&& next.start_at == op.start_at
                &&& if divides {
                    &&& next.stage matches WriteStage::Split { split, at: leaf, found_at }
                    &&& leaf == at
                    &&& found_at == now
                    &&& split == (SplitOp { at, start_at: now, stage: SplitStage::Read })
                    &&& action == Action::ReadPage(at.addr, CacheOption::Default)
                } else {
                    &&& next.stage == (WriteStage::Begin { at, found_at: now })
                    &&& action is Begin
                }
            }
        }),
{
}

/// A write whose leaf page has been split begins again; one whose leaf page could not be split
/// goes on to write to it.
pub proof fn law_write_begins_again_after_a_split(
    op: WriteOp,
    options: Options,
    safe_lsn: u64,
    now: Duration,
    event: Event,
    turn: WriteTurn,
)
    requires
        op.stage is Split,
        op.steps_to(options, safe_lsn, now, event, turn),
    ensures
        exists|inner: SplitTurn| #[trigger]
            op.stage->split.steps_to(now, event, inner) && match inner.next {
                Next::Run(going, asked) => turn.next matches Next::Run(next, action) && action
                    == asked && next.stage == (WriteStage::Split {
                    split: going,
                    at: op.stage->Split_at,
                    found_at: op.stage->Split_found_at,
                }),
                Next::Done(Ok(())) => if op.stage->split.stage is Read {
                    turn.next matches Next::Run(next, action) && action is Begin && next.stage
                        == (WriteStage::Begin {
                        at: op.stage->Split_at,
                        found_at: op.stage->Split_found_at,
                    })
                } else {
                    writes_again(op, now, turn)
                },
                Next::Done(Err(_)) => turn.next matches Next::Run(next, action) && action is Begin
                    && next.stage == (WriteStage::Begin {
                    at: op.stage->Split_at,
                    found_at: op.stage->Split_found_at,
                }),
                Next::Halt(halt) => turn.next == Next::<WriteOp, Result<(), Error>>::Halt(halt),
            },
{
}

/// A write that has begun its transaction builds a page with its one version, and puts that
/// page in front of the leaf page.
pub proof fn law_write_puts_its_version_in_front(
    op: WriteOp,
    options: Options,
    safe_lsn: u64,
    times: Seq<Duration>,
    begun: WriteTurn,
    addr: u64,
    size: usize,
    built: WriteTurn,
)
    requires
        op.stage is Begin,
        op.steps_to(options, safe_lsn, times[0], Event::Begun, begun),
        begun.next matches Next::Run(next, _) ==> next.steps_to(
            options,
            safe_lsn,
            times[1],
            Event::Built { addr, size },
            built,
        ),
    ensures
        begun.next matches Next::Run(_, Action::BuildPage(draft)) && is_single_version(
            draft,
            op.key,
            op.value,
        ),
        built.next matches Next::Run(next, action) && puts_in_front(
            action,
            op.stage->Begin_at,
            addr,
        ) && next.stage == (WriteStage::Update {
            at: op.stage->Begin_at,
            new_addr: addr,
            size,
            built_at: times[1],
        }),
{
    match begun.next {
        Next::Run(next, Action::BuildPage(draft)) => match draft.items {
            Items::Values(v) => {
                assert(v@[0].1.content() == op.value.content());
            },
            _ => {},
        },
        _ => {},
    }
}

/// A write whose page was not put in its place: where the transaction is lost, or the page is
/// the root, the write begins again. Else it reads the header of the page that came in
/// between, and tries again in front of that page if the epoch is still the same; if not, it
/// begins again.
pub proof fn law_write_follows_its_leaf_page(
    op: WriteOp,
    options: Options,
    safe_lsn: u64,
    now: Duration,
    event: Event,
    turn: WriteTurn,
)
    requires
        op.steps_to(options, safe_lsn, now, event, turn),
    ensures
        op.stage is Update && event is UpdateLost ==> writes_again(op, now, turn),
        op.stage is Update ==> (event matches Event::UpdateMoved(addr) ==> if op.stage->Update_at.id
            == ROOT_ID {
            writes_again(op, now, turn)
        } else {
            turn.next matches Next::Run(next, action) && action == Action::ReadPageInfo(addr)
                && next.stage == (WriteStage::Moved {
                at: op.stage->Update_at,
                new_addr: op.stage->Update_new_addr,
                size: op.stage->Update_size,
                built_at: op.stage->Update_built_at,
                addr,
            })
        }),
        op.stage is Moved ==> (event matches Event::Info(page) ==> if page.epoch
            == op.stage->Moved_at.page.epoch {
            let at = PageHandle { id: op.stage->Moved_at.id, addr: op.stage->Moved_addr, page };
            turn.next matches Next::Run(next, action) && puts_in_front(
                action,
                at,
                op.stage->Moved_new_addr,
            ) && next.stage == (WriteStage::Update {
                at,
                new_addr: op.stage->Moved_new_addr,
                size: op.stage->Moved_size,
                built_at: op.stage->Moved_built_at,
            })
        } else {
            writes_again(op, now, turn)
        }),
        (op.stage is Build || op.stage is Moved) ==> (event matches Event::Failed(e) ==> if e
            is Again {
            writes_again(op, now, turn)
        } else {
            turn.next == Next::<WriteOp, Result<(), Error>>::Done(Err(e))
        }),
{
}

/// A read that has found its leaf page reads the chain of that page from its newest page on;
/// a failure of the store ends it.
pub proof fn law_read_reads_the_leaf_page(
    op: GetOp,
    options: Options,
    safe_lsn: u64,
    now: Duration,
    event: Event,
    turn: GetTurn,
)
    requires
        op.steps_to(options, safe_lsn, now, event, turn),
    ensures
        op.stage matches GetStage::Find(search) ==> (search.stage matches FindStage::Info {
            index,
            addr,
            ..
        } ==> (event matches Event::Info(page) ==> (page.epoch == index.epoch && page.tier is Leaf
            && addr != 0 ==> {
            &&& turn.next matches Next::Run(next, action)
            &&& next.key == op.key
            &&& next.start_at == op.start_at
            &&& next.stage == (GetStage::Walk { found_at: now })
            &&& action == Action::ReadPage(addr, CacheOption::Default)
        }))),
        op.stage is Walk ==> (event matches Event::Failed(e) ==> turn.next == Next::<
            GetOp,
            Result<Option<Vec<u8>>, Error>,
        >::Done(Err(e))),
{
}

/// A reconciliation starts with reading the page that announces the split. A data page needs
/// none, and without a parent and a range there can be none.
pub proof fn law_reconciliation_reads_the_split(
    view: PageView,
    parent: Option<PageHandle>,
    turn: ReconcileTurn,
)
    requires
        reconcile_starts(view, parent, turn),
    ensures
        match view.at.page.kind {
            PageKind::Data => {
                &&& turn.notes@ == seq![Note::Success(Counter::ReconcilePage)]
                &&& turn.next == Next::<ReconcileOp, Result<(), Error>>::Done(Ok(()))
            },
            PageKind::Split => {
                &&& turn.notes@.len() == 0
                &&& if parent is Some && view.range is Some {
                    turn.next == Next::<ReconcileOp, Result<(), Error>>::Run(
                        ReconcileOp {
                            at: view.at,
                            parent: parent->0,
                            stage: ReconcileStage::Read { range: view.range->0 },
                        },
                        Action::ReadPage(view.at.addr, CacheOption::Default),
                    )
                } else {
                    turn.next == Next::<ReconcileOp, Result<(), Error>>::Done(
                        Err(Error::InvalidArgument),
                    )
                }
            },
        },
{
}

/// The references with which the parent learns of the split: the page that was split keeps
/// the start of its range, with its new epoch; the new page has the keys from the split key
/// on; and where the range has an end, what comes from there on is left as it is.
pub open spec fn tells_of_the_split(
    items: Seq<(Vec<u8>, Index)>,
    range: Range,
    at: PageHandle,
    split_key: Seq<u8>,
    right: Index,
) -> bool {
    &&& items.len() == (if range.end is Some {
        3int
    } else {
        2int
    })
    &&& items[0].0@ == range.start@
    &&& items[0].1 == (Index { id: at.id, epoch: at.page.epoch })
    &&& items[1].0@ == split_key
    &&& items[1].1 == right
    &&& range.end matches Some(end) ==> items[2].0@ == end@ && items[2].1 == (Index {
        id: 0,
        epoch: 0,
    })
}

/// A reconciliation to which nothing happens: the page that it has read names the split key
/// and the new page; a page that tells of them is built and put in front of the parent,
/// without a change of its epoch.
pub proof fn law_reconciliation_goes_through(
    op: ReconcileOp,
    options: Options,
    safe_lsn: u64,
    times: Seq<Duration>,
    page: Page,
    read: ReconcileTurn,
    begun: ReconcileTurn,
    addr: u64,
    size: usize,
    built: ReconcileTurn,
)
    requires
        op.stage is Read,
        page.items matches Items::Indexes(v) && v@.len() > 0 && (op.stage->Read_range.end matches
            Some(end) ==> bytes_lt(v@[0].0@, end@)),
        op.steps_to(options, safe_lsn, times[0], Event::Page(page), read),
        read.next matches Next::Run(next, _) ==> next.steps_to(
            options,
            safe_lsn,
            times[1],
            Event::Begun,
            begun,
        ),
        begun.next matches Next::Run(next, _) ==> next.steps_to(
            options,
            safe_lsn,
            times[2],
            Event::Built { addr, size },
            built,
        ),
    ensures
        read.next matches Next::Run(_, action) && action is Begin,
        begun.next matches Next::Run(_, Action::BuildPage(draft)) && {
            let first = page.items->Indexes_0@[0];
            &&& draft.tier == PageTier::Inner
            &&& draft.kind == PageKind::Data
            &&& draft.items matches Items::Indexes(v)
            &&& tells_of_the_split(v@, op.stage->Read_range, op.at, first.0@, first.1)
        },
        built.next matches Next::Run(next, action) && {
            &&& puts_in_front(action, op.parent, addr)
            &&& next.at == op.at
            &&& next.parent == op.parent
            &&& next.stage == (ReconcileStage::Update {
                new: PageHandle {
                    id: op.parent.id,
                    addr,
                    page: PageInfo {
                        tier: PageTier::Inner,
                        kind: PageKind::Data,
                        epoch: op.parent.page.epoch,
                        chain_len: one_more(op.parent.page.chain_len) as u8,
                        chain_next: op.parent.addr,
                        size,
                    },
                },
            })
        },
{
}

/// A reconciliation refuses a page without a split, and a split at or beyond the end of the
/// range; where the parent was exchanged meanwhile it has met a conflict; and a failure of
/// the store ends it.
pub proof fn law_reconciliation_gives_way(
    op: ReconcileOp,
    options: Options,
    safe_lsn: u64,
    now: Duration,
    event: Event,
    turn: ReconcileTurn,
)
    requires
        op.steps_to(options, safe_lsn, now, event, turn),
    ensures
        op.stage is Read ==> (event matches Event::Page(page) ==> (page.items matches
            Items::Indexes(v) ==> {
            &&& v@.len() == 0 ==> turn.next == Next::<ReconcileOp, Result<(), Error>>::Halt(
                Halt::SplitDeltaMissing,
            )
            &&& v@.len() > 0 ==> (op.stage->Read_range.end matches Some(end) ==> (!bytes_lt(
                v@[0].0@,
                end@,
            ) ==> turn.next == Next::<ReconcileOp, Result<(), Error>>::Halt(
                Halt::SplitKeyOutOfRange,
            )))
        })),
        op.stage is Read ==> (event matches Event::Page(page) ==> (page.items is Values
            ==> turn.next == Next::<ReconcileOp, Result<(), Error>>::Halt(
            Halt::SplitDeltaMissing,
        ))),
        op.stage is Update && (event is UpdateLost || event is UpdateMoved) ==> turn.next
            == Next::<ReconcileOp, Result<(), Error>>::Done(Err(Error::Again)) && turn.notes@
            == seq![Note::Conflict(Counter::ReconcilePage)],
        (op.stage is Read || op.stage is Build) ==> (event matches Event::Failed(e) ==> turn.next
            == Next::<ReconcileOp, Result<(), Error>>::Done(Err(e)) && turn.notes@ == if e
            is Again {
            seq![Note::Conflict(Counter::ReconcilePage)]
        } else {
            Seq::empty()
        }),
{
}

} // verus!
