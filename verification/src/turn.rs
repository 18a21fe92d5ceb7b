//! How an operation and the page store take turns: the operation asks for an action,
//! the store performs it, and what came of it is the event of the next step.

use crate::note::Note;
use crate::page::{Draft, Page, PageHeader, PageInfo};
use vstd::prelude::*;

verus! {

/// Why an operation failed.
#[derive(Clone, Copy, Debug, PartialEq, Eq, Structural)]
pub enum Error {
    /// The operation met a conflict and should be tried again.
    Again,
    /// The operation does not apply to what it was given.
    InvalidArgument,
    /// The page store failed. The number is the store's own.
    Storage(u64),
}

/// What the cache does with a page that is read.
#[derive(Clone, Copy, Debug, PartialEq, Eq, Structural)]
pub enum CacheOption {
    Default,
    RefillColdWhenNotFull,
}

/// What an operation asks of the page store.
#[derive(Debug)]
pub enum Action {
    /// Look up the address of the page with this id.
    PageAddr(u64),
    /// Read the header of the page at this address.
    ReadPageInfo(u64),
    /// Read the page at this address.
    ReadPage(u64, CacheOption),
    /// Begin a transaction of the store.
    Begin,
    /// Allocate and build a page. Its header is that of a page that stands alone.
    BuildPage(Draft),
    /// Give the page at this address an id of its own.
    InsertPage(u64),
    /// Set the header of the page at `new_addr`, then let the id lead there, provided
    /// that it still leads to `old_addr`.
    UpdatePage { id: u64, old_addr: u64, new_addr: u64, header: PageHeader },
    /// As `UpdatePage`; then deallocate the pages at the given addresses.
    ReplacePage {
        id: u64,
        old_addr: u64,
        new_addr: u64,
        header: PageHeader,
        dealloc_addrs: Vec<u64>,
    },
    /// Commit the transaction of the store.
    Commit,
}

/// What came of an action.
#[derive(Debug)]
pub enum Event {
    /// The address of a page; 0 where the id has none.
    Addr(u64),
    Info(PageInfo),
    Page(Page),
    Begun,
    /// The address and the size of the page that was built.
    Built { addr: u64, size: usize },
    /// The id of the page that was inserted.
    Inserted(u64),
    Updated,
    /// The id did not lead to the old address and the transaction is lost.
    UpdateLost,
    /// The id leads to this address now. The transaction goes on.
    UpdateMoved(u64),
    Replaced,
    ReplaceFailed,
    Committed,
    Failed(Error),
}

impl Event {
    /// A page that was read is well formed.
    pub open spec fn wf(self) -> bool {
        self matches Event::Page(page) ==> page.wf()
    }

    /// Tells whether a page that was read is well formed.
    pub fn is_wf(&self) -> (r: bool)
        ensures
            r == self.wf(),
    {
        match self {
            Event::Page(page) => page.is_wf(),
            _ => true,
        }
    }
}

/// Why an operation cannot go on: what the store holds is not a tree, or the store did
/// not answer what it was asked.
#[derive(Clone, Copy, Debug, PartialEq, Eq, Structural)]
pub enum Halt {
    /// No page of an inner chain names a child for the key.
    ChildMissing,
    /// A page that announces a split holds nothing.
    SplitDeltaMissing,
    /// A page was split at a key beyond its range.
    SplitKeyOutOfRange,
    /// The root has an epoch, or is not a page that stands alone.
    RootNotBase,
    /// The first page that was inserted is not the root.
    RootIdMismatch,
    /// A page of a chain has the contents of another tier.
    TierMismatch,
    /// A number is too large.
    Overflow,
    /// The event does not answer the action.
    UnexpectedEvent,
}

/// What an operation does next: ask for an action, or finish.
#[derive(Debug)]
pub enum Next<M, R> {
    Run(M, Action),
    Done(R),
    Halt(Halt),
}

/// One step of an operation.
#[derive(Debug)]
pub struct Turn<M, R> {
    pub notes: Vec<Note>,
    pub next: Next<M, R>,
}

impl<M, R> Turn<M, R> {
    /// Nothing to report, and an action to perform.
    pub open spec fn asks(self, op: M, action: Action) -> bool {
        self.notes@ == Seq::<Note>::empty() && self.next == Next::<M, R>::Run(op, action)
    }

    /// Reports, and an end.
    pub open spec fn ends(self, notes: Seq<Note>, result: R) -> bool {
        self.notes@ =~= notes && self.next == Next::<M, R>::Done(result)
    }

    pub open spec fn halts(self, halt: Halt) -> bool {
        self.notes@ == Seq::<Note>::empty() && self.next == Next::<M, R>::Halt(halt)
    }

    pub fn ask(op: M, action: Action) -> (r: Self)
        ensures
            r.asks(op, action),
    {
        Turn { notes: Vec::new(), next: Next::Run(op, action) }
    }

    pub fn end(result: R) -> (r: Self)
        ensures
            r.ends(Seq::empty(), result),
    {
        Turn { notes: Vec::new(), next: Next::Done(result) }
    }

    /// Adds a report.
    pub fn report(self, note: Note) -> (r: Self)
        ensures
            r.notes@ == self.notes@.push(note),
            r.next == self.next,
    {
        let mut notes = self.notes;
        notes.push(note);
        Turn { notes, next: self.next }
    }

    pub fn halt(halt: Halt) -> (r: Self)
        ensures
            r.halts(halt),
    {
        Turn { notes: Vec::new(), next: Next::Halt(halt) }
    }
}

} // verus!
