//! Creating the root of a new tree.

use crate::page::{Draft, Items, Key, PageKind, PageTier, Value, ROOT_ID};
use crate::turn::{Action, Error, Event, Halt, Turn};
use crate::turn::Next;
use vstd::prelude::*;

verus! {

/// How far the initialization has come.
#[derive(Debug)]
pub enum InitOp {
    /// The address of the root is being looked up.
    Addr,
    /// The transaction is being begun.
    Begin,
    /// The root is being built, then inserted.
    Build,
    Insert,
    /// The transaction is being committed.
    Commit,
}

pub type InitTurn = Turn<InitOp, Result<(), Error>>;

/// The draft is of an empty leaf page.
pub open spec fn is_empty_leaf(draft: Draft) -> bool {
    &&& draft.tier is Leaf
    &&& draft.kind is Data
    &&& draft.items matches Items::Values(v) && v@.len() == 0
}

impl InitOp {
    /// How the initialization goes on after an event.
    pub open spec fn steps_to(self, event: Event, turn: InitTurn) -> bool {
        match (self, event) {
            (InitOp::Addr, Event::Addr(addr)) => if addr != 0 {
                turn.ends(Seq::empty(), Ok(()))
            } else {
                turn.asks(InitOp::Begin, Action::Begin)
            },
            (InitOp::Begin, Event::Begun) => {
                &&& turn.next matches Next::Run(_, action)
                &&& action matches Action::BuildPage(draft)
                &&& is_empty_leaf(draft)
                &&& turn.asks(InitOp::Build, action)
            },
            (InitOp::Build, Event::Built { addr, .. }) => turn.asks(
                InitOp::Insert,
                Action::InsertPage(addr),
            ),
            (InitOp::Insert, Event::Inserted(id)) => if id == ROOT_ID {
                turn.asks(InitOp::Commit, Action::Commit)
            } else {
                turn.halts(Halt::RootIdMismatch)
            },
            (InitOp::Commit, Event::Committed) => turn.ends(Seq::empty(), Ok(())),
            (InitOp::Build, Event::Failed(e)) => turn.ends(Seq::empty(), Err(e)),
            _ => turn.halts(Halt::UnexpectedEvent),
        }
    }

    /// Starts to initialize the tree if it is not initialized yet.
    pub fn start() -> (turn: InitTurn)
        ensures
            turn.asks(InitOp::Addr, Action::PageAddr(ROOT_ID)),
    {
        Turn::ask(InitOp::Addr, Action::PageAddr(ROOT_ID))
    }

    /// Goes on after an event.
    pub fn step(self, event: Event) -> (turn: InitTurn)
        ensures
            self.steps_to(event, turn),
    {
        match (self, event) {
            (InitOp::Addr, Event::Addr(addr)) => {
                if addr != 0 {
                    return Turn::end(Ok(()));
                }
                Turn::ask(InitOp::Begin, Action::Begin)
            },
            (InitOp::Begin, Event::Begun) => {
                // Insert an empty data page as the root.
                let items: Vec<(Key, Value)> = Vec::new();
                Turn::ask(
                    InitOp::Build,
                    Action::BuildPage(
                        Draft {
                            tier: PageTier::Leaf,
                            kind: PageKind::Data,
                            items: Items::Values(items),
                        },
                    ),
                )
            },
            (InitOp::Build, Event::Built { addr, .. }) => Turn::ask(
                InitOp::Insert,
                Action::InsertPage(addr),
            ),
            (InitOp::Insert, Event::Inserted(id)) => {
                if id != ROOT_ID {
                    return Turn::halt(Halt::RootIdMismatch);
                }
                Turn::ask(InitOp::Commit, Action::Commit)
            },
            (InitOp::Commit, Event::Committed) => Turn::end(Ok(())),
            (InitOp::Build, Event::Failed(e)) => Turn::end(Err(e)),
            _ => Turn::halt(Halt::UnexpectedEvent),
        }
    }
}

} // verus!
