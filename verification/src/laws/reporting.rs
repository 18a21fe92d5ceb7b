//! What operations report, how they begin, and which answers they refuse.

use crate::consolidate::{ConsolidateOp, ConsolidateTurn};
use crate::get::{get_begins, GetOp, GetStage, GetTurn};
use crate::iter::{NextPageOp, NextPageTurn};
use crate::laws::courses::is_new_search;
use crate::laws::finding::{bytes_of, can_be_seen, is_newest_seen,
    law_page_says_what_its_newest_version_holds};
use crate::laws::upkeep::{is_too_large, is_too_long, one_more};
use crate::note::{Counter, Note, Timing};
use crate::page::{Items, Key, Page, PageTier, Value};
use crate::reconcile::{ReconcileOp, ReconcileStage, ReconcileTurn};
use crate::restructure::{RestructureOp, RestructureTurn};
use crate::search::{FindLeafOp, FindLeafTurn, FindStage};
use crate::split::{SplitOp, SplitTurn};
use crate::tree::Options;
use crate::turn::{Action, CacheOption, Error, Event, Halt, Next};
use crate::write::{write_begins, WriteOp, WriteStage, WriteTurn};
use std::time::Duration;
use vstd::prelude::*;

verus! {

/// A write begins with a search for its key from the root, and so does a read.
pub proof fn law_operations_begin_at_the_root(
    key: Key,
    value: Value,
    start_at: Duration,
    now: Duration,
    before: Seq<Note>,
    write: WriteTurn,
    read: GetTurn,
)
    requires
        write_begins(key, value, start_at, now, before, write),
        get_begins(key, now, read),
    ensures
        write.notes@ == before,
        write.next matches Next::Run(op, action) && {
            &&& op.key == key
            &&& op.value == value
            &&& op.start_at == start_at
            &&& op.stage matches WriteStage::Find { search, before: from }
            &&& from == now
            &&& is_new_search(search, action, key.raw@)
        },
        read.notes@.len() == 0,
        read.next matches Next::Run(op, action) && {
            &&& op.key == key
            &&& op.start_at == now
            &&& op.stage matches GetStage::Find(search)
            &&& is_new_search(search, action, key.raw@)
        },
{
}

/// What a write reports that has succeeded: itself, the bytes that it has written, and how
/// long it took.
pub open spec fn success_of(op: WriteOp, now: Duration) -> Seq<Note> {
    seq![
        Note::Success(Counter::Write),
        Note::WriteBytes {
            key: op.key.raw@.len() as usize,
            value: match bytes_of(op.value) {
                Some(bytes) => bytes.len() as usize,
                None => 0,
            },
        },
        Note::Time(Timing::Total, op.start_at, now),
    ]
}

/// A write reports how long it took to find the leaf page, to build its page and to put it in
/// place; once it has succeeded it is counted once, with its bytes. What the restructuring
/// reports is handed on.
pub proof fn law_write_reports(
    op: WriteOp,
    options: Options,
    safe_lsn: u64,
    now: Duration,
    event: Event,
    turn: WriteTurn,
)
    requires
        op.steps_to(options, safe_lsn, now, event, turn),
    ensures
        op.stage is Begin && event is Begun ==> turn.notes@.len() == 0,
        op.stage is Build && event is Built ==> turn.notes@ == seq![
            Note::Time(Timing::WriteBuildPage, op.stage->Build_found_at, now),
        ],
        op.stage is Update && event is Updated && !is_too_long(
            options,
            PageTier::Leaf,
            one_more(op.stage->Update_at.page.chain_len),
        ) ==> turn.notes@ == seq![Note::Time(Timing::ReplacePage, op.stage->Update_built_at, now)]
            + success_of(op, now),
        op.stage is Update && event is Updated && is_too_long(
            options,
            PageTier::Leaf,
            one_more(op.stage->Update_at.page.chain_len),
        ) && op.stage->Update_new_addr != 0 ==> turn.notes@ == seq![
            Note::Time(Timing::ReplacePage, op.stage->Update_built_at, now),
        ],
        op.stage is Update && event is UpdateLost ==> turn.notes@ == seq![
            Note::Conflict(Counter::Write),
        ],
        op.stage is Update && event is UpdateMoved ==> turn.notes@ == if op.stage->Update_at.id
            == 1 {
            seq![Note::Conflict(Counter::Write)]
        } else {
            Seq::empty()
        },
        op.stage is Moved ==> (event matches Event::Info(page) ==> turn.notes@ == if page.epoch
            == op.stage->Moved_at.page.epoch {
            Seq::empty()
        } else {
            seq![Note::Conflict(Counter::Write)]
        }),
        (op.stage is Build || op.stage is Moved) ==> (event matches Event::Failed(e) ==> turn.notes@
            == if e is Again {
            seq![Note::Conflict(Counter::Write)]
        } else {
            Seq::empty()
        }),
        op.stage matches WriteStage::Restructure(inner) ==> exists|going: RestructureTurn|
            #[trigger]
            inner.steps_to(options, now, event, going) && turn.notes@ == (if going.next is Done {
                going.notes@ + success_of(op, now)
            } else {
                going.notes@
            }),
        op.stage matches WriteStage::Find { search, before } ==> exists|going: FindLeafTurn|
            #[trigger]
            search.steps_to(options, safe_lsn, now, event, going) && match going.next {
                Next::Done(Ok((view, _))) => !(is_too_large(
                    options,
                    view.at.page.tier,
                    view.at.page.size as int,
                ) && view.at.page.chain_next == 0) ==> turn.notes@ == going.notes@.push(
                    Note::Time(Timing::FindLeaf, before, now),
                ),
                Next::Done(Err(e)) => turn.notes@ == if e is Again {
                    going.notes@.push(Note::Conflict(Counter::Write))
                } else {
                    going.notes@
                },
                _ => turn.notes@ == going.notes@,
            },
        op.stage matches WriteStage::Split { split, .. } ==> exists|going: SplitTurn| #[trigger]
            split.steps_to(now, event, going) && turn.notes@ == (if going.next matches
                Next::Done(Ok(_)) && !(split.stage is Read) {
                going.notes@.push(Note::Conflict(Counter::Write))
            } else {
                going.notes@
            }),
{
    if let WriteStage::Update { .. } = op.stage {
        assert(match op.value.content() {
            Some(v) => v.len() as usize,
            None => 0usize,
        } == match bytes_of(op.value) {
            Some(v) => v.len() as usize,
            None => 0usize,
        });
    }
}

/// What a read reports that has ended: how long it took to find the leaf page, the bytes that
/// it has read, and how long it took.
pub open spec fn end_of(
    op: GetOp,
    found_at: Duration,
    now: Duration,
    value: Option<Seq<u8>>,
) -> Seq<Note> {
    seq![
        Note::Time(Timing::FindValue, op.start_at, found_at),
        Note::ReadBytes {
            key: op.key.raw@.len() as usize,
            value: match value {
                Some(bytes) => bytes.len() as usize,
                None => 0,
            },
        },
        Note::Time(Timing::Total, op.start_at, now),
    ]
}

/// The read ends with the value, and reports so.
pub open spec fn read_ends(
    op: GetOp,
    found_at: Duration,
    now: Duration,
    value: Option<Seq<u8>>,
    turn: GetTurn,
) -> bool {
    &&& turn.notes@ == end_of(op, found_at, now, value)
    &&& turn.next matches Next::Done(Ok(found))
    &&& match (found, value) {
        (Some(f), Some(v)) => f@ == v,
        (None, None) => true,
        _ => false,
    }
}

/// A read that has got a leaf page ends with the newest version of its key that is not too new
/// for it, a deletion being no value. Where the page has no such version, or announces a
/// split, the page behind it is read; behind the last page the read ends without a value.
pub proof fn law_read_ends_with_the_newest_version(
    op: GetOp,
    options: Options,
    safe_lsn: u64,
    now: Duration,
    page: Page,
    turn: GetTurn,
)
    requires
        op.stage is Walk,
        page.wf(),
        op.steps_to(options, safe_lsn, now, Event::Page(page), turn),
    ensures
        ({
            let raw = op.key.raw@;
            let lsn = op.key.lsn;
            let says = page.items matches Items::Values(v) && exists|i: int| #[trigger]
                can_be_seen(v@, raw, lsn, i);
            &&& says ==> forall|i: int| #[trigger]
                is_newest_seen(page.items->Values_0@, raw, lsn, i) ==> read_ends(
                    op,
                    op.stage->found_at,
                    now,
                    bytes_of(page.items->Values_0@[i].1),
                    turn,
                )
            &&& !says && page.info.chain_next == 0 ==> read_ends(
                op,
                op.stage->found_at,
                now,
                None,
                turn,
            )
            &&& !says && page.info.chain_next != 0 ==> {
                &&& turn.notes@.len() == 0
                &&& turn.next == Next::<GetOp, Result<Option<Vec<u8>>, Error>>::Run(
                    op,
                    Action::ReadPage(page.info.chain_next, CacheOption::Default),
                )
            }
        }),
{
    law_page_says_what_its_newest_version_holds(page, op.key.raw@, op.key.lsn);
}

/// What the search of a read reports is handed on; a search that fails ends the read.
pub proof fn law_read_follows_its_search(
    op: GetOp,
    options: Options,
    safe_lsn: u64,
    now: Duration,
    event: Event,
    turn: GetTurn,
)
    requires
        op.stage is Find,
        op.steps_to(options, safe_lsn, now, event, turn),
    ensures
        exists|going: FindLeafTurn| #[trigger]
            op.stage->Find_0.steps_to(options, safe_lsn, now, event, going) && match going.next {
                Next::Run(search, action) => {
                    &&& turn.notes@ == going.notes@
                    &&& turn.next == Next::<GetOp, Result<Option<Vec<u8>>, Error>>::Run(
                        GetOp {
                            key: op.key,
                            start_at: op.start_at,
                            stage: GetStage::Find(search),
                        },
                        action,
                    )
                },
                Next::Done(Ok((view, _))) => if view.at.addr == 0 {
                    &&& turn.notes@ == going.notes@ + end_of(op, now, now, None)
                    &&& turn.next matches Next::Done(Ok(None))
                } else {
                    &&& turn.notes@ == going.notes@
                    &&& turn.next == Next::<GetOp, Result<Option<Vec<u8>>, Error>>::Run(
                        GetOp {
                            key: op.key,
                            start_at: op.start_at,
                            stage: GetStage::Walk { found_at: now },
                        },
                        Action::ReadPage(view.at.addr, CacheOption::Default),
                    )
                },
                Next::Done(Err(e)) => {
                    &&& turn.notes@ == going.notes@
                    &&& turn.next == Next::<GetOp, Result<Option<Vec<u8>>, Error>>::Done(Err(e))
                },
                Next::Halt(halt) => turn.next == Next::<
                    GetOp,
                    Result<Option<Vec<u8>>, Error>,
                >::Halt(halt),
            },
{
}

/// A split is counted once when its page is in place, and a conflict when it is not; only a
/// split that is not of the root reports how long it took.
pub proof fn law_split_reports(op: SplitOp, now: Duration, event: Event, turn: SplitTurn)
    requires
        op.steps_to(now, event, turn),
    ensures
        turn.notes@ == if op.stage is Update && event is Updated {
            seq![
                Note::Success(Counter::SplitPage),
                Note::Time(Timing::SplitPage, op.start_at, now),
            ]
        } else if op.stage is Replace && event is Replaced {
            seq![Note::Success(Counter::SplitPage)]
        } else if (op.stage is Update && (event is UpdateLost || event is UpdateMoved)) || (
        op.stage is Replace && event is ReplaceFailed) {
            seq![Note::Conflict(Counter::SplitPage)]
        } else {
            Seq::empty()
        },
{
}

/// A reconciliation is counted once when it has succeeded; what the restructuring reports is
/// handed on.
pub proof fn law_reconciliation_reports(
    op: ReconcileOp,
    options: Options,
    safe_lsn: u64,
    now: Duration,
    event: Event,
    turn: ReconcileTurn,
)
    requires
        op.steps_to(options, safe_lsn, now, event, turn),
    ensures
        (op.stage is Read && event is Page) || (op.stage is Begin && event is Begun) || (
        op.stage is Build && event is Built) ==> turn.notes@.len() == 0,
        op.stage is Update && event is Updated && turn.next is Done ==> turn.notes@ == seq![
            Note::Success(Counter::ReconcilePage),
        ] || op.stage->new.addr == 0,
        op.stage is Update && event is Updated && turn.next is Run ==> turn.notes@.len() == 0
            || op.stage->new.addr == 0,
        op.stage matches ReconcileStage::Restructure(inner) ==> exists|going: RestructureTurn|
            #[trigger]
            inner.steps_to(options, now, event, going) && turn.notes@ == (if going.next is Done {
                going.notes@.push(Note::Success(Counter::ReconcilePage))
            } else {
                going.notes@
            }),
{
}

/// What a restructuring does is what its consolidation does, and then its split; all that they
/// report is handed on.
pub proof fn law_restructuring_reports(
    op: RestructureOp,
    options: Options,
    now: Duration,
    event: Event,
    turn: RestructureTurn,
)
    requires
        op.steps_to(options, now, event, turn),
    ensures
        op matches RestructureOp::Consolidate(inner) ==> exists|going: ConsolidateTurn| #[trigger]
            inner.steps_to(options, now, event, going) && turn.notes@ == going.notes@ && (
            going.next matches Next::Done(Ok(new)) ==> if is_too_large(
                options,
                new.page.tier,
                new.page.size as int,
            ) && new.page.chain_next == 0 {
                turn.next matches Next::Run(next, action) ==> next matches RestructureOp::Split(
                    split,
                ) && split.at == new && split.start_at == now && action == Action::ReadPage(
                    new.addr,
                    CacheOption::Default,
                )
            } else {
                turn.next == Next::<RestructureOp, Result<(), Error>>::Done(Ok(()))
            }) && (going.next matches Next::Done(Err(e)) ==> turn.next == Next::<
                RestructureOp,
                Result<(), Error>,
            >::Done(Err(e))) && (going.next matches Next::Run(next, action) ==> turn.next == Next::<
                RestructureOp,
                Result<(), Error>,
            >::Run(RestructureOp::Consolidate(next), action)) && (going.next matches
                Next::Halt(halt) ==> turn.next == Next::<
                RestructureOp,
                Result<(), Error>,
            >::Halt(halt)),
        op matches RestructureOp::Split(inner) ==> exists|going: SplitTurn| #[trigger]
            inner.steps_to(now, event, going) && turn.notes@ == going.notes@ && (going.next is Done
                ==> turn.next == Next::<RestructureOp, Result<(), Error>>::Done(Ok(()))) && (
            going.next matches Next::Run(next, action) ==> turn.next == Next::<
                RestructureOp,
                Result<(), Error>,
            >::Run(RestructureOp::Split(next), action)) && (going.next matches Next::Halt(halt)
                ==> turn.next == Next::<RestructureOp, Result<(), Error>>::Halt(halt)),
{
}

/// The answer is none to what a write has asked for.
pub open spec fn is_no_answer_to_write(op: WriteOp, event: Event) -> bool {
    match op.stage {
        WriteStage::Begin { .. } => !(event is Begun),
        WriteStage::Build { .. } => !(event is Built || event is Failed),
        WriteStage::Update { .. } => !(event is Updated || event is UpdateLost
            || event is UpdateMoved),
        WriteStage::Moved { .. } => !(event is Info || event is Failed),
        _ => false,
    }
}

/// The answer is none to what a search has asked for.
pub open spec fn is_no_answer_to_search(op: FindLeafOp, event: Event) -> bool {
    match op.stage {
        FindStage::Addr { .. } => !(event is Addr),
        FindStage::Info { .. } => !(event is Info || event is Failed),
        FindStage::Child { .. } => !(event is Page || event is Failed),
        _ => false,
    }
}

/// The answer is none to what a reconciliation has asked for.
pub open spec fn is_no_answer_to_reconciliation(op: ReconcileOp, event: Event) -> bool {
    match op.stage {
        ReconcileStage::Read { .. } => !(event is Page || event is Failed),
        ReconcileStage::Begin { .. } => !(event is Begun),
        ReconcileStage::Build => !(event is Built || event is Failed),
        ReconcileStage::Update { .. } => !(event is Updated || event is UpdateLost
            || event is UpdateMoved),
        _ => false,
    }
}

/// No operation goes on after an event that does not answer what it has asked for.
pub proof fn law_other_events_are_refused(
    options: Options,
    safe_lsn: u64,
    now: Duration,
    event: Event,
    write: WriteOp,
    write_turn: WriteTurn,
    search: FindLeafOp,
    search_turn: FindLeafTurn,
    reconcile: ReconcileOp,
    reconcile_turn: ReconcileTurn,
    read: GetOp,
    read_turn: GetTurn,
)
    requires
        write.steps_to(options, safe_lsn, now, event, write_turn),
        search.steps_to(options, safe_lsn, now, event, search_turn),
        reconcile.steps_to(options, safe_lsn, now, event, reconcile_turn),
        read.steps_to(options, safe_lsn, now, event, read_turn),
    ensures
        is_no_answer_to_write(write, event) ==> write_turn.notes@.len() == 0 && write_turn.next
            == Next::<WriteOp, Result<(), Error>>::Halt(Halt::UnexpectedEvent),
        is_no_answer_to_search(search, event) ==> search_turn.notes@.len() == 0
            && search_turn.next is Halt && search_turn.next->Halt_0 == Halt::UnexpectedEvent,
        is_no_answer_to_reconciliation(reconcile, event) ==> reconcile_turn.notes@.len() == 0
            && reconcile_turn.next == Next::<ReconcileOp, Result<(), Error>>::Halt(
            Halt::UnexpectedEvent,
        ),
        read.stage is Walk && !(event is Page || event is Failed) ==> read_turn.notes@.len() == 0
            && read_turn.next is Halt && read_turn.next->Halt_0 == Halt::UnexpectedEvent,
{
}

/// No upkeep of pages and no step of an iterator goes on after an event that does not answer
/// what it has asked for.
pub proof fn law_other_events_stop_the_upkeep(
    options: Options,
    safe_lsn: u64,
    now: Duration,
    event: Event,
    consolidate: ConsolidateOp,
    consolidate_turn: ConsolidateTurn,
    split: SplitOp,
    split_turn: SplitTurn,
    iter: NextPageOp,
    iter_turn: NextPageTurn,
)
    requires
        consolidate.steps_to(options, now, event, consolidate_turn),
        split.steps_to(now, event, split_turn),
        iter.steps_to(options, safe_lsn, now, event, iter_turn),
    ensures
        (consolidate.stage is Collect && !(event is Page || event is Failed)) || (
        consolidate.stage is Begin && !(event is Begun)) || (consolidate.stage is Build && !(
        event is Built || event is Failed)) || (consolidate.stage is Replace && !(event is Replaced
            || event is ReplaceFailed)) ==> consolidate_turn.next is Halt
            && consolidate_turn.next->Halt_0 == Halt::UnexpectedEvent,
        (split.stage is Read && !(event is Page || event is Failed)) || (split.stage is Begin && !(
        event is Begun)) || ((split.stage is BuildLeft || split.stage is BuildRight
            || split.stage is BuildDelta || split.stage is BuildRoot) && !(event is Built
            || event is Failed)) || ((split.stage is InsertLeft || split.stage is InsertRight) && !(
        event is Inserted)) || (split.stage is Update && !(event is Updated || event is UpdateLost
            || event is UpdateMoved)) || (split.stage is Replace && !(event is Replaced
            || event is ReplaceFailed)) ==> split_turn.next is Halt && split_turn.next->Halt_0
            == Halt::UnexpectedEvent,
        (iter.stage is Addr && !(event is Addr)) || (iter.stage is Info && !(event is Info
            || event is Failed)) || ((iter.stage is Leaf || iter.stage is SeekLeaf
            || iter.stage is SeekParent) && !(event is Page || event is Failed))
            ==> iter_turn.next is Halt && iter_turn.next->Halt_0 == Halt::UnexpectedEvent,
{
}

} // verus!
