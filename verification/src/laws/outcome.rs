//! How operations may end.

use crate::bytes::lemma_bytes_order;
use crate::lookup::{is_cover, item_range, page_child};
use crate::merge::split_index;
use crate::page::{Page, PageView, ROOT_ID};
use crate::search::{FindLeafNext, FindLeafOp, FindLeafTurn, FindStage};
use crate::split::{is_base_data, is_base_root};
use crate::tree::{splits, Options};
use crate::turn::{Action, CacheOption, Event, Next};
use crate::write::{WriteOp, WriteStage, WriteTurn};
use std::time::Duration;
use vstd::prelude::*;

verus! {

/// A search never ends with a conflict: it begins again until it has come to a leaf page or
/// the store fails.
pub proof fn law_search_never_ends_in_conflict(
    op: FindLeafOp,
    options: Options,
    safe_lsn: u64,
    now: Duration,
    event: Event,
    turn: FindLeafTurn,
)
    requires
        op.steps_to(options, safe_lsn, now, event, turn),
    ensures
        turn.next matches Next::Done(Err(e)) ==> event == Event::Failed(e) && !(e is Again),
{
}

/// A write never ends with a conflict: it begins again until it is done or the store fails.
pub proof fn law_write_never_ends_in_conflict(
    op: WriteOp,
    options: Options,
    safe_lsn: u64,
    now: Duration,
    event: Event,
    turn: WriteTurn,
)
    requires
        op.steps_to(options, safe_lsn, now, event, turn),
    ensures
        turn.next matches Next::Done(Err(e)) ==> event == Event::Failed(e) && !(e is Again),
{
    match op.stage {
        WriteStage::Find { search, before } => {
            let found = choose|found: FindLeafTurn| #[trigger]
                search.steps_to(options, safe_lsn, now, event, found) && op.goes_on_with_search(
                    options,
                    before,
                    now,
                    found,
                    turn,
                );
            law_search_never_ends_in_conflict(search, options, safe_lsn, now, event, found);
        },
        _ => {},
    }
}

/// A write succeeds only once its page has been put in front of the leaf page, and whether
/// the leaf page is then consolidated or split decides nothing.
pub proof fn law_write_succeeds_once_its_page_is_in_place(
    op: WriteOp,
    options: Options,
    safe_lsn: u64,
    now: Duration,
    event: Event,
    turn: WriteTurn,
)
    requires
        op.steps_to(options, safe_lsn, now, event, turn),
    ensures
        turn.next matches Next::Done(Ok(_)) ==> op.stage is Restructure || (op.stage is Update
            && event is Updated),
        turn.next matches Next::Run(next, _) && next.stage is Restructure ==> op.stage
            is Restructure || (op.stage is Update && event is Updated),
        op.stage is Restructure ==> match turn.next {
            Next::Run(next, _) => next.stage is Restructure,
            Next::Done(result) => result is Ok,
            Next::Halt(_) => true,
        },
{
}

/// A write that has found a leaf page that is too large first reads it to divide it.
pub proof fn law_write_reads_a_leaf_that_is_too_large(
    op: WriteOp,
    options: Options,
    now: Duration,
    search: FindLeafTurn,
    view: PageView,
    parent: Option<PageView>,
    turn: WriteTurn,
)
    requires
        op.stage is Find,
        search.next == FindLeafNext::Done(Ok((view, parent))),
        op.goes_on_with_search(options, op.stage->before, now, search, turn),
        splits(options, view.at.page),
        is_base_data(view.at),
        view.at.id == ROOT_ID ==> is_base_root(view.at),
    ensures
        turn.next matches Next::Run(next, action) && {
            &&& next.key == op.key
            &&& next.value == op.value
            &&& next.stage matches WriteStage::Split { split, at, .. }
            &&& split.stage is Read
            &&& at == view.at
            &&& action == Action::ReadPage(view.at.addr, CacheOption::Default)
        },
{
}

/// A leaf page that is too large and cannot be divided is written to as it is: the write goes
/// on to begin its transaction.
pub proof fn law_write_goes_on_where_nothing_can_be_divided(
    op: WriteOp,
    options: Options,
    safe_lsn: u64,
    now: Duration,
    page: Page,
    turn: WriteTurn,
)
    requires
        op.stage is Split,
        op.stage->split.stage is Read,
        split_index(page.items) is None,
        op.steps_to(options, safe_lsn, now, Event::Page(page), turn),
    ensures
        turn.asks(
            op.to(
                WriteStage::Begin { at: op.stage->Split_at, found_at: op.stage->Split_found_at },
            ),
            Action::Begin,
        ),
{
}

/// However often a write begins again, it is the write of the same value to the same key.
pub proof fn law_write_keeps_its_key_and_value(
    op: WriteOp,
    options: Options,
    safe_lsn: u64,
    now: Duration,
    event: Event,
    turn: WriteTurn,
)
    requires
        op.steps_to(options, safe_lsn, now, event, turn),
    ensures
        turn.next matches Next::Run(next, _) ==> next.key == op.key && next.value == op.value
            && next.start_at == op.start_at,
{
}

/// The range for which a search looks for a page contains the key.
pub open spec fn range_holds_key(op: FindLeafOp) -> bool {
    match op.stage {
        FindStage::Addr { range, .. } => range@.contains(op.key@),
        FindStage::Info { range, .. } => range@.contains(op.key@),
        FindStage::Child { view } => view.range matches Some(range) && range@.contains(op.key@),
        FindStage::Reconcile(_) => true,
    }
}

/// Whatever the pages hold and however they change, a search only comes to pages for ranges
/// that contain its key.
pub proof fn law_search_stays_where_its_key_is(
    op: FindLeafOp,
    options: Options,
    safe_lsn: u64,
    now: Duration,
    event: Event,
    turn: FindLeafTurn,
)
    requires
        range_holds_key(op),
        op.steps_to(options, safe_lsn, now, event, turn),
    ensures
        match turn.next {
            Next::Run(next, _) => next.key == op.key && range_holds_key(next),
            Next::Done(Ok((view, _))) => view.range matches Some(range) && range@.contains(
                op.key@,
            ),
            _ => true,
        },
{
    lemma_bytes_order(Seq::<u8>::empty(), op.key@);
    match (op.stage, event) {
        (FindStage::Child { view }, Event::Page(page)) => {
            if page_child(page, op.key@) is Some {
                let items = page.items->Indexes_0@;
                let i = choose|i: int| is_cover(items, op.key@, i);
                assert(item_range(items, i).contains(op.key@));
            }
        },
        _ => {},
    }
}

} // verus!
