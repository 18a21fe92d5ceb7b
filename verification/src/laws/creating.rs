//! The creation of a tree, from its start to its end.

use crate::init::{InitOp, InitTurn};
use crate::page::{Items, Key, PageKind, PageTier, Value, ROOT_ID};
use crate::turn::{Action, Error, Event, Halt, Next};
use vstd::prelude::*;

verus! {

/// The initialization asks for the address of the root first, and each turn follows from the
/// event that came of what the turn before it asked for.
pub open spec fn is_init_course(events: Seq<Event>, turns: Seq<InitTurn>) -> bool {
    &&& turns.len() == events.len() + 1
    &&& turns[0].asks(InitOp::Addr, Action::PageAddr(ROOT_ID))
    &&& forall|i: int|
        0 <= i < events.len() ==> (#[trigger] turns[i].next matches Next::Run(op, _)
            && op.steps_to(events[i], turns[i + 1]))
}

/// The action that a turn asks for.
pub open spec fn asked(turn: InitTurn) -> Action {
    turn.next->Run_1
}

/// The action is to build a leaf page without items.
pub open spec fn builds_empty_leaf(action: Action) -> bool {
    &&& action matches Action::BuildPage(draft)
    &&& draft.tier == PageTier::Leaf
    &&& draft.kind == PageKind::Data
    &&& draft.items matches Items::Values(v) && v@ == Seq::<(Key, Value)>::empty()
}

/// An initialization that ends well has found a root, and has begun nothing; or it has built an
/// empty leaf page, has got the id of the root for it, and has committed its transaction.
pub proof fn law_initialization_commits_an_empty_root(
    events: Seq<Event>,
    turns: Seq<InitTurn>,
)
    requires
        is_init_course(events, turns),
        turns.last().next == Next::<InitOp, Result<(), Error>>::Done(Ok(())),
    ensures
        events.len() > 0,
        events[0] is Addr,
        events[0] != Event::Addr(0) ==> events.len() == 1,
        events[0] == Event::Addr(0) ==> {
            &&& events.len() == 5
            &&& asked(turns[1]) is Begin
            &&& events[1] is Begun
            &&& builds_empty_leaf(asked(turns[2]))
            &&& events[2] is Built
            &&& asked(turns[3]) == Action::InsertPage(events[2]->Built_addr)
            &&& events[3] == Event::Inserted(ROOT_ID)
            &&& asked(turns[4]) is Commit
            &&& events[4] is Committed
        },
{
    let n = events.len() as int;
    assert(turns[n] == turns.last());
    assert(turns[0].next is Run);
    assert(n > 0);
    if n > 1 {
        assert(turns[1].next is Run);
        assert(turns[2].next matches Next::Run(op, _) ==> op is Build);
        if n > 2 {
            assert(turns[2].next is Run);
            if n > 3 {
                assert(turns[3].next is Run);
                if n > 4 {
                    assert(turns[4].next is Run);
                    if n > 5 {
                        assert(turns[5].next is Run);
                    }
                }
            }
        }
    }
    if n >= 3 {
        match asked(turns[2]) {
            Action::BuildPage(draft) => match draft.items {
                Items::Values(v) => {
                    assert(v@ =~= Seq::<(Key, Value)>::empty());
                },
                _ => {},
            },
            _ => {},
        }
    }
}

/// An initialization that finds no root and to which nothing happens goes through.
pub proof fn law_initialization_goes_through(events: Seq<Event>, turns: Seq<InitTurn>)
    requires
        turns.len() == events.len() + 1,
        turns[0].asks(InitOp::Addr, Action::PageAddr(ROOT_ID)),
        forall|i: int|
            0 <= i < events.len() ==> (#[trigger] turns[i].next matches Next::Run(op, _)
                ==> op.steps_to(events[i], turns[i + 1])),
        events.len() == 5,
        events[0] == Event::Addr(0),
        events[1] is Begun,
        events[2] is Built,
        events[3] == Event::Inserted(ROOT_ID),
        events[4] is Committed,
    ensures
        turns[5].next == Next::<InitOp, Result<(), Error>>::Done(Ok(())),
        forall|i: int| 0 <= i <= 5 ==> (#[trigger] turns[i]).notes@.len() == 0,
{
    assert(turns[0].next is Run);
    assert(turns[1].next is Run);
    assert(turns[2].next is Run);
    assert(turns[3].next is Run);
    assert(turns[4].next is Run);
}

/// A page that was inserted under another id than that of the root is refused, and a failure to
/// build it is handed on. An event that does not answer what was asked for stops it.
pub proof fn law_initialization_refuses_another_root(op: InitOp, event: Event, turn: InitTurn)
    requires
        op.steps_to(event, turn),
    ensures
        op is Insert ==> (event matches Event::Inserted(id) ==> (id != ROOT_ID ==> turn.next
            == Next::<InitOp, Result<(), Error>>::Halt(Halt::RootIdMismatch))),
        op is Build ==> (event matches Event::Failed(e) ==> turn.next == Next::<
            InitOp,
            Result<(), Error>,
        >::Done(Err(e))),
        op is Addr ==> (event matches Event::Addr(addr) ==> (addr != 0 ==> turn.next == Next::<
            InitOp,
            Result<(), Error>,
        >::Done(Ok(())))),
        turn.notes@.len() == 0,
        (op is Addr && !(event is Addr)) || (op is Begin && !(event is Begun)) || (op is Build && !(
        event is Built || event is Failed)) || (op is Insert && !(event is Inserted)) || (
        op is Commit && !(event is Committed)) ==> turn.next == Next::<
            InitOp,
            Result<(), Error>,
        >::Halt(Halt::UnexpectedEvent),
{
}

} // verus!
