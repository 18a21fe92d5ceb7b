//! Consolidating a page, and splitting what comes of it where it is too large.

use crate::consolidate::ConsolidateOp;
use crate::consolidate::{consolidate_starts, ConsolidateTurn};
use crate::note::Note;
use crate::page::PageHandle;
use crate::split::SplitOp;
use crate::split::{split_starts, SplitTurn};
use crate::tree::TreeTxn;
use crate::tree::{splits, Options};
use crate::turn::{Error, Event, Next, Turn};
use std::time::Duration;
use vstd::prelude::*;

verus! {

/// A consolidation, and the split that may follow it.
#[derive(Debug)]
pub enum RestructureOp {
    Consolidate(ConsolidateOp),
    Split(SplitOp),
}

pub type RestructureTurn = Turn<RestructureOp, Result<(), Error>>;

/// The split goes on or starts. Whether it succeeds does not matter.
pub open spec fn goes_on_with_split(
    before: Seq<Note>,
    split: SplitTurn,
    turn: RestructureTurn,
) -> bool {
    &&& turn.notes@ =~= before + split.notes@
    &&& match split.next {
        Next::Run(op, action) => turn.next == Next::<RestructureOp, Result<(), Error>>::Run(
            RestructureOp::Split(op),
            action,
        ),
        Next::Done(_) => turn.next == Next::<RestructureOp, Result<(), Error>>::Done(Ok(())),
        Next::Halt(halt) => turn.next == Next::<RestructureOp, Result<(), Error>>::Halt(halt),
    }
}

/// The consolidation goes on or has ended. If the new page is too large, a split of it
/// starts.
pub open spec fn goes_on_with_consolidation(
    options: Options,
    now: Duration,
    consolidation: ConsolidateTurn,
    turn: RestructureTurn,
) -> bool {
    match consolidation.next {
        Next::Run(op, action) => {
            &&& turn.notes@ == consolidation.notes@
            &&& turn.next == Next::<RestructureOp, Result<(), Error>>::Run(
                RestructureOp::Consolidate(op),
                action,
            )
        },
        Next::Done(Ok(new)) => if splits(options, new.page) {
            exists|split: SplitTurn| #[trigger]
                split_starts(new, now, split) && goes_on_with_split(
                    consolidation.notes@,
                    split,
                    turn,
                )
        } else {
            turn.ends(consolidation.notes@, Ok(()))
        },
        Next::Done(Err(e)) => turn.ends(consolidation.notes@, Err(e)),
        Next::Halt(halt) => {
            &&& turn.notes@ == consolidation.notes@
            &&& turn.next == Next::<RestructureOp, Result<(), Error>>::Halt(halt)
        },
    }
}

/// How the restructuring of a page starts.
pub open spec fn restructure_starts(
    options: Options,
    at: PageHandle,
    safe_lsn: u64,
    now: Duration,
    turn: RestructureTurn,
) -> bool {
    exists|consolidation: ConsolidateTurn| #[trigger]
        consolidate_starts(at, safe_lsn, now, consolidation) && goes_on_with_consolidation(
            options,
            now,
            consolidation,
            turn,
        )
}

impl RestructureOp {
    /// How the restructuring goes on after an event.
    pub open spec fn steps_to(
        self,
        options: Options,
        now: Duration,
        event: Event,
        turn: RestructureTurn,
    ) -> bool {
        match self {
            RestructureOp::Consolidate(op) => exists|consolidation: ConsolidateTurn| #[trigger]
                op.steps_to(options, now, event, consolidation) && goes_on_with_consolidation(
                    options,
                    now,
                    consolidation,
                    turn,
                ),
            RestructureOp::Split(op) => exists|split: SplitTurn| #[trigger]
                op.steps_to(now, event, split) && goes_on_with_split(Seq::empty(), split, turn),
        }
    }

    fn go_on_with_split(before: Vec<Note>, split: SplitTurn) -> (turn: RestructureTurn)
        ensures
            goes_on_with_split(before@, split, turn),
    {
        let mut notes = before;
        let mut more = split.notes;
        notes.append(&mut more);
        let next = match split.next {
            Next::Run(op, action) => Next::Run(RestructureOp::Split(op), action),
            Next::Done(_) => Next::Done(Ok(())),
            Next::Halt(halt) => Next::Halt(halt),
        };
        Turn { notes, next }
    }

    fn go_on_with_consolidation(
        txn: &TreeTxn<'_>,
        now: Duration,
        consolidation: ConsolidateTurn,
    ) -> (turn: RestructureTurn)
        ensures
            goes_on_with_consolidation(txn.options(), now, consolidation, turn),
    {
        let notes = consolidation.notes;
        match consolidation.next {
            Next::Run(op, action) => Turn {
                notes,
                next: Next::Run(RestructureOp::Consolidate(op), action),
            },
            Next::Done(Ok(new)) => {
                // Try to split the page if it is too large.
                if txn.should_split_page(&new.page) {
                    let split = SplitOp::start(new, now);
                    assert(split_starts(new, now, split));
                    RestructureOp::go_on_with_split(notes, split)
                } else {
                    Turn { notes, next: Next::Done(Ok(())) }
                }
            },
            Next::Done(Err(e)) => Turn { notes, next: Next::Done(Err(e)) },
            Next::Halt(halt) => Turn { notes, next: Next::Halt(halt) },
        }
    }

    /// Starts to consolidate and restructure the page.
    pub fn start(txn: &TreeTxn<'_>, at: PageHandle, now: Duration) -> (turn: RestructureTurn)
        ensures
            restructure_starts(txn.options(), at, txn.safe_lsn(), now, turn),
    {
        let consolidation = ConsolidateOp::start(at, txn.tree_safe_lsn(), now);
        assert(consolidate_starts(at, txn.safe_lsn(), now, consolidation));
        RestructureOp::go_on_with_consolidation(txn, now, consolidation)
    }

    /// Goes on after an event.
    pub fn step(self, txn: &TreeTxn<'_>, now: Duration, event: Event) -> (turn: RestructureTurn)
        ensures
            self.steps_to(txn.options(), now, event, turn),
    {
        match self {
            RestructureOp::Consolidate(op) => {
                let consolidation = op.step(txn, now, event);
                assert(op.steps_to(txn.options(), now, event, consolidation));
                RestructureOp::go_on_with_consolidation(txn, now, consolidation)
            },
            RestructureOp::Split(op) => {
                let split = op.step(now, event);
                assert(op.steps_to(now, event, split));
                let notes: Vec<Note> = Vec::new();
                assert(notes@ =~= Seq::<Note>::empty());
                RestructureOp::go_on_with_split(notes, split)
            },
        }
    }
}

} // verus!
