//! Making a split known to the parent of the page that was split.

use crate::bytes::bytes_less;
use crate::bytes::bytes_lt;
use crate::lookup::{is_split_delta, split_delta_from_page};
use crate::lookup::{has_split_delta, split_delta};
use crate::note::{Counter, Note};
use crate::page::{built_info, chained_header, null_index, RangeView};
use crate::page::{Draft, Index, Items, PageHandle, PageHeader, PageInfo, PageKind, PageTier,
    PageView, Range, NAN_ID};
use crate::restructure::RestructureOp;
use crate::restructure::{restructure_starts, RestructureTurn};
use crate::tree::TreeTxn;
use crate::tree::{consolidates, Options};
use crate::turn::{Action, CacheOption, Error, Event, Halt, Next, Turn};
use std::time::Duration;
use vstd::prelude::*;

verus! {

/// The items with which a parent learns that the page `left`, which it knows for the
/// range, ends at `split_key` where the page `right` begins. Where the range has an end, a
/// placeholder marks the end of the right page.
pub open spec fn is_reconcile_delta(
    items: Seq<(Vec<u8>, Index)>,
    range: RangeView,
    left: Index,
    split_key: Seq<u8>,
    right: Index,
) -> bool {
    &&& items.len() == (if range.end is Some {
        3int
    } else {
        2
    })
    &&& items[0].0@ == range.start
    &&& items[0].1 == left
    &&& items[1].0@ == split_key
    &&& items[1].1 == right
    &&& range.end matches Some(end) ==> items[2].0@ == end && items[2].1 == null_index()
}

/// How far a reconciliation has come.
#[derive(Debug)]
pub enum ReconcileStage {
    /// The page that announces the split is being read.
    Read { range: Range },
    /// The transaction is being begun.
    Begin { delta: Vec<(Vec<u8>, Index)> },
    /// The page for the parent is being built, then put in front of it.
    Build,
    Update { new: PageHandle },
    /// The parent is being consolidated.
    Restructure(RestructureOp),
}

/// A reconciliation of a split page with its parent.
#[derive(Debug)]
pub struct ReconcileOp {
    pub at: PageHandle,
    pub parent: PageHandle,
    pub stage: ReconcileStage,
}

pub type ReconcileTurn = Turn<ReconcileOp, Result<(), Error>>;

/// How a reconciliation of the page starts.
pub open spec fn reconcile_starts(
    view: PageView,
    parent: Option<PageHandle>,
    turn: ReconcileTurn,
) -> bool {
    match (view.at.page.kind, parent, view.range) {
        (PageKind::Data, _, _) => turn.ends(
            seq![Note::Success(Counter::ReconcilePage)],
            Ok(()),
        ),
        (PageKind::Split, Some(parent), Some(range)) => turn.asks(
            ReconcileOp { at: view.at, parent, stage: ReconcileStage::Read { range } },
            Action::ReadPage(view.at.addr, CacheOption::Default),
        ),
        _ => turn.ends(Seq::empty(), Err(Error::InvalidArgument)),
    }
}

/// The reconciliation has failed. Only a conflict is counted.
pub open spec fn reconcile_fails(e: Error, turn: ReconcileTurn) -> bool {
    turn.ends(
        if e is Again {
            seq![Note::Conflict(Counter::ReconcilePage)]
        } else {
            Seq::empty()
        },
        Err(e),
    )
}

/// The restructuring of the parent goes on or has ended. Whether it succeeds does not
/// matter.
pub open spec fn goes_on_with_restructuring(
    at: PageHandle,
    parent: PageHandle,
    restructuring: RestructureTurn,
    turn: ReconcileTurn,
) -> bool {
    match restructuring.next {
        Next::Run(op, action) => {
            &&& turn.notes@ == restructuring.notes@
            &&& turn.next == Next::<ReconcileOp, Result<(), Error>>::Run(
                ReconcileOp { at, parent, stage: ReconcileStage::Restructure(op) },
                action,
            )
        },
        Next::Done(_) => turn.ends(
            restructuring.notes@.push(Note::Success(Counter::ReconcilePage)),
            Ok(()),
        ),
        Next::Halt(halt) => {
            &&& turn.notes@ == restructuring.notes@
            &&& turn.next == Next::<ReconcileOp, Result<(), Error>>::Halt(halt)
        },
    }
}

impl ReconcileOp {
    pub open spec fn to(self, stage: ReconcileStage) -> ReconcileOp {
        ReconcileOp { stage, ..self }
    }

    /// How the reconciliation goes on after an event.
    pub open spec fn steps_to(
        self,
        options: Options,
        safe_lsn: u64,
        now: Duration,
        event: Event,
        turn: ReconcileTurn,
    ) -> bool {
        match (self.stage, event) {
            (ReconcileStage::Read { range }, Event::Page(page)) => {
                let (split_key, right) = split_delta(page);
                if !has_split_delta(page) {
                    turn.halts(Halt::SplitDeltaMissing)
                } else if range@.end matches Some(end) && !bytes_lt(split_key, end) {
                    turn.halts(Halt::SplitKeyOutOfRange)
                } else {
                    &&& turn.next matches Next::Run(op, _)
                    &&& op.stage matches ReconcileStage::Begin { delta }
                    &&& is_reconcile_delta(
                        delta@,
                        range@,
                        Index { id: self.at.id, epoch: self.at.page.epoch },
                        split_key,
                        right,
                    )
                    &&& turn.asks(self.to(op.stage), Action::Begin)
                }
            },
            (ReconcileStage::Begin { delta }, Event::Begun) => turn.asks(
                self.to(ReconcileStage::Build),
                Action::BuildPage(
                    Draft {
                        tier: PageTier::Inner,
                        kind: PageKind::Data,
                        items: Items::Indexes(delta),
                    },
                ),
            ),
            (ReconcileStage::Build, Event::Built { addr, size }) => {
                let header = chained_header(
                    self.parent.page.epoch,
                    self.parent.page,
                    self.parent.addr,
                );
                let new = PageHandle {
                    id: self.parent.id,
                    addr,
                    page: built_info(PageTier::Inner, PageKind::Data, header, size),
                };
                turn.asks(
                    self.to(ReconcileStage::Update { new }),
                    Action::UpdatePage {
                        id: self.parent.id,
                        old_addr: self.parent.addr,
                        new_addr: addr,
                        header,
                    },
                )
            },
            (ReconcileStage::Update { new }, Event::Updated) => if consolidates(
                options,
                new.page,
            ) {
                exists|restructuring: RestructureTurn| #[trigger]
                    restructure_starts(options, new, safe_lsn, now, restructuring)
                        && goes_on_with_restructuring(
                        self.at,
                        self.parent,
                        restructuring,
                        turn,
                    )
            } else {
                turn.ends(seq![Note::Success(Counter::ReconcilePage)], Ok(()))
            },
            (ReconcileStage::Update { .. }, Event::UpdateLost) => reconcile_fails(
                Error::Again,
                turn,
            ),
            (ReconcileStage::Update { .. }, Event::UpdateMoved(_)) => reconcile_fails(
                Error::Again,
                turn,
            ),
            (ReconcileStage::Restructure(op), _) => exists|
                restructuring: RestructureTurn,
            | #[trigger]
                op.steps_to(options, now, event, restructuring) && goes_on_with_restructuring(
                    self.at,
                    self.parent,
                    restructuring,
                    turn,
                ),
            (ReconcileStage::Read { .. }, Event::Failed(e)) => reconcile_fails(e, turn),
            (ReconcileStage::Build, Event::Failed(e)) => reconcile_fails(e, turn),
            _ => turn.halts(Halt::UnexpectedEvent),
        }
    }

    fn fail(e: Error) -> (turn: ReconcileTurn)
        ensures
            reconcile_fails(e, turn),
    {
        match e {
            Error::Again => Turn::end(Err(e)).report(Note::Conflict(Counter::ReconcilePage)),
            _ => Turn::end(Err(e)),
        }
    }

    fn go_on_with_restructuring(
        at: PageHandle,
        parent: PageHandle,
        restructuring: RestructureTurn,
    ) -> (turn: ReconcileTurn)
        ensures
            goes_on_with_restructuring(at, parent, restructuring, turn),
    {
        let notes = restructuring.notes;
        match restructuring.next {
            Next::Run(op, action) => Turn {
                notes,
                next: Next::Run(
                    ReconcileOp { at, parent, stage: ReconcileStage::Restructure(op) },
                    action,
                ),
            },
            Next::Done(_) => {
                let mut notes = notes;
                notes.push(Note::Success(Counter::ReconcilePage));
                Turn { notes, next: Next::Done(Ok(())) }
            },
            Next::Halt(halt) => Turn { notes, next: Next::Halt(halt) },
        }
    }

    /// Starts to reconcile any conflicts on the page.
    pub fn start(view: PageView, parent: Option<PageHandle>) -> (turn: ReconcileTurn)
        ensures
            reconcile_starts(view, parent, turn),
    {
        let at = view.at;
        match (at.page.kind, parent, view.range) {
            (PageKind::Data, _, _) => Turn::end(Ok(())).report(
                Note::Success(Counter::ReconcilePage),
            ),
            (PageKind::Split, Some(parent), Some(range)) => Turn::ask(
                ReconcileOp { at, parent, stage: ReconcileStage::Read { range } },
                Action::ReadPage(at.addr, CacheOption::Default),
            ),
            _ => Turn::end(Err(Error::InvalidArgument)),
        }
    }

    /// Goes on after an event.
    pub fn step(self, txn: &TreeTxn<'_>, now: Duration, event: Event) -> (turn: ReconcileTurn)
        ensures
            self.steps_to(txn.options(), txn.safe_lsn(), now, event, turn),
    {
        let at = self.at;
        let parent = self.parent;
        match (self.stage, event) {
            (ReconcileStage::Read { range }, Event::Page(page)) => {
                if !is_split_delta(&page) {
                    return Turn::halt(Halt::SplitDeltaMissing);
                }
                let (split_key, right) = split_delta_from_page(&page);
                let left = Index::new(at.id, at.page.epoch);
                // Build a delta page with the child on the left and the new split page on
                // the right.
                let delta = match range.end {
                    Some(end) => {
                        if !bytes_less(split_key.as_slice(), end.as_slice()) {
                            return Turn::halt(Halt::SplitKeyOutOfRange);
                        }
                        vec![
                            (range.start, left),
                            (split_key, right),
                            // This is a placeholder to indicate the range end of the right
                            // page.
                            (end, Index::new(NAN_ID, 0)),
                        ]
                    },
                    None => vec![(range.start, left), (split_key, right)],
                };
                Turn::ask(
                    ReconcileOp { at, parent, stage: ReconcileStage::Begin { delta } },
                    Action::Begin,
                )
            },
            (ReconcileStage::Begin { delta }, Event::Begun) => Turn::ask(
                ReconcileOp { at, parent, stage: ReconcileStage::Build },
                Action::BuildPage(
                    Draft {
                        tier: PageTier::Inner,
                        kind: PageKind::Data,
                        items: Items::Indexes(delta),
                    },
                ),
            ),
            (ReconcileStage::Build, Event::Built { addr, size }) => {
                // Update the parent page with the delta.
                let header = PageHeader::chained(parent.page.epoch, &parent.page, parent.addr);
                let page = PageInfo::built(PageTier::Inner, PageKind::Data, &header, size);
                let new = PageHandle { id: parent.id, addr, page };
                Turn::ask(
                    ReconcileOp { at, parent, stage: ReconcileStage::Update { new } },
                    Action::UpdatePage {
                        id: parent.id,
                        old_addr: parent.addr,
                        new_addr: addr,
                        header,
                    },
                )
            },
            (ReconcileStage::Update { new }, Event::Updated) => {
                // Try to consolidate the parent page if it is too long.
                if txn.should_consolidate_page(&new.page) {
                    let restructuring = RestructureOp::start(txn, new, now);
                    assert(restructure_starts(
                        txn.options(),
                        new,
                        txn.safe_lsn(),
                        now,
                        restructuring,
                    ));
                    ReconcileOp::go_on_with_restructuring(at, parent, restructuring)
                } else {
                    Turn::end(Ok(())).report(Note::Success(Counter::ReconcilePage))
                }
            },
            (ReconcileStage::Update { .. }, Event::UpdateLost) => ReconcileOp::fail(Error::Again),
            (ReconcileStage::Update { .. }, Event::UpdateMoved(_)) => ReconcileOp::fail(
                Error::Again,
            ),
            (ReconcileStage::Restructure(op), event) => {
                let restructuring = op.step(txn, now, event);
                assert(op.steps_to(txn.options(), now, event, restructuring));
                ReconcileOp::go_on_with_restructuring(at, parent, restructuring)
            },
            (ReconcileStage::Read { .. }, Event::Failed(e)) => ReconcileOp::fail(e),
            (ReconcileStage::Build, Event::Failed(e)) => ReconcileOp::fail(e),
            _ => Turn::halt(Halt::UnexpectedEvent),
        }
    }
}

} // verus!
