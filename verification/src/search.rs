//! Finding the leaf page for a key.

use crate::bytes::bytes_copy;
use crate::lookup::child_in_page;
use crate::lookup::page_child;
use crate::note::{Counter, Note};
use crate::page::{root_index, root_range, RangeView};
use crate::page::{Index, PageHandle, PageView, Range, ROOT_ID};
use crate::reconcile::ReconcileOp;
use crate::reconcile::{reconcile_starts, ReconcileTurn};
use crate::tree::Options;
use crate::tree::TreeTxn;
use crate::turn::{Action, CacheOption, Error, Event, Halt, Next, Turn};
use std::time::Duration;
use vstd::prelude::*;

verus! {

/// How far a search has come.
#[derive(Debug)]
pub enum FindStage {
    /// The address of the page is being looked up.
    Addr { index: Index, range: Range },
    /// The header of the page is being read.
    Info { index: Index, range: Range, addr: u64 },
    /// The chain of an inner page is being searched for the child.
    Child { view: PageView },
    /// The page has been split, and its parent is being told.
    Reconcile(ReconcileOp),
}

/// A search for the leaf page that may contain a key.
#[derive(Debug)]
pub struct FindLeafOp {
    pub key: Vec<u8>,
    pub parent: Option<PageView>,
    pub stage: FindStage,
}

pub type FindLeafTurn = Turn<FindLeafOp, Result<(PageView, Option<PageView>), Error>>;

pub type FindLeafNext = Next<FindLeafOp, Result<(PageView, Option<PageView>), Error>>;

/// The search for the key is about to look up the root.
pub open spec fn is_at_root(op: FindLeafOp, key: Seq<u8>) -> bool {
    &&& op.key@ == key
    &&& op.parent is None
    &&& op.stage matches FindStage::Addr { index, range }
    &&& index == root_index()
    &&& range@ == root_range()
}

/// The search begins at the root.
pub open spec fn begins_at_root(key: Vec<u8>, before: Seq<Note>, turn: FindLeafTurn) -> bool {
    &&& turn.notes@ =~= before
    &&& turn.next matches Next::Run(op, action)
    &&& op.key == key
    &&& is_at_root(op, key@)
    &&& action == Action::PageAddr(ROOT_ID)
}

/// The range of a child: as its parent gives it, or up to the end of the parent's own
/// range where the parent gives no end.
pub open spec fn narrowed(outer: Option<Range>, inner: RangeView) -> RangeView {
    RangeView {
        start: inner.start,
        end: match inner.end {
            Some(end) => Some(end),
            None => match outer {
                Some(outer) => outer@.end,
                None => None,
            },
        },
    }
}

/// The reconciliation goes on. Once it has ended, the search begins again.
pub open spec fn goes_on_with_reconciliation(
    key: Vec<u8>,
    reconciliation: ReconcileTurn,
    turn: FindLeafTurn,
) -> bool {
    match reconciliation.next {
        Next::Run(op, action) => {
            &&& turn.notes@ == reconciliation.notes@
            &&& turn.next == FindLeafNext::Run(
                FindLeafOp { key, parent: None, stage: FindStage::Reconcile(op) },
                action,
            )
        },
        Next::Done(_) => begins_at_root(
            key,
            reconciliation.notes@.push(Note::Conflict(Counter::Read)),
            turn,
        ),
        Next::Halt(halt) => {
            &&& turn.notes@ == reconciliation.notes@
            &&& turn.next == FindLeafNext::Halt(halt)
        },
    }
}

/// Where a page was found.
pub open spec fn handle_of(view: Option<PageView>) -> Option<PageHandle> {
    match view {
        Some(view) => Some(view.at),
        None => None,
    }
}

impl FindLeafOp {
    pub open spec fn to(self, stage: FindStage) -> FindLeafOp {
        FindLeafOp { stage, ..self }
    }

    /// A conflict makes the search begin again; any other failure ends it.
    pub open spec fn fails(self, e: Error, turn: FindLeafTurn) -> bool {
        if e is Again {
            begins_at_root(self.key, seq![Note::Conflict(Counter::Read)], turn)
        } else {
            turn.ends(Seq::empty(), Err(e))
        }
    }

    /// How the search goes on after the header of a page was read.
    pub open spec fn arrives(
        self,
        index: Index,
        range: Range,
        at: PageHandle,
        turn: FindLeafTurn,
    ) -> bool {
        let view = PageView { at, range: Some(range) };
        if at.page.epoch != index.epoch {
            exists|reconciliation: ReconcileTurn| #[trigger]
                reconcile_starts(view, handle_of(self.parent), reconciliation)
                    && goes_on_with_reconciliation(self.key, reconciliation, turn)
        } else if at.page.tier is Leaf {
            turn.ends(seq![Note::Success(Counter::Read)], Ok((view, self.parent)))
        } else if at.addr == 0 {
            turn.halts(Halt::ChildMissing)
        } else {
            turn.asks(
                self.to(FindStage::Child { view }),
                Action::ReadPage(at.addr, CacheOption::Default),
            )
        }
    }

    /// How the search goes on after an event.
    pub open spec fn steps_to(
        self,
        options: Options,
        safe_lsn: u64,
        now: Duration,
        event: Event,
        turn: FindLeafTurn,
    ) -> bool {
        match (self.stage, event) {
            (FindStage::Addr { index, range }, Event::Addr(addr)) => turn.asks(
                self.to(FindStage::Info { index, range, addr }),
                Action::ReadPageInfo(addr),
            ),
            (FindStage::Info { index, range, addr }, Event::Info(page)) => self.arrives(
                index,
                range,
                PageHandle { id: index.id, addr, page },
                turn,
            ),
            (FindStage::Child { view }, Event::Page(page)) => match page_child(page, self.key@) {
                Some((child, child_range)) => {
                    &&& turn.next matches Next::Run(op, _)
                    &&& op.stage matches FindStage::Addr { index, range }
                    &&& index == child
                    &&& range@ == narrowed(view.range, child_range)
                    &&& turn.asks(
                        FindLeafOp { key: self.key, parent: Some(view), stage: op.stage },
                        Action::PageAddr(child.id),
                    )
                },
                None => if page.info.chain_next == 0 {
                    turn.halts(Halt::ChildMissing)
                } else {
                    turn.asks(
                        self,
                        Action::ReadPage(page.info.chain_next, CacheOption::Default),
                    )
                },
            },
            (FindStage::Reconcile(op), _) => exists|reconciliation: ReconcileTurn| #[trigger]
                op.steps_to(options, safe_lsn, now, event, reconciliation)
                    && goes_on_with_reconciliation(self.key, reconciliation, turn),
            (FindStage::Info { .. }, Event::Failed(e)) => self.fails(e, turn),
            (FindStage::Child { .. }, Event::Failed(e)) => self.fails(e, turn),
            _ => turn.halts(Halt::UnexpectedEvent),
        }
    }

    fn begin(key: Vec<u8>, notes: Vec<Note>) -> (turn: FindLeafTurn)
        ensures
            begins_at_root(key, notes@, turn),
    {
        let stage = FindStage::Addr { index: Index::new(ROOT_ID, 0), range: Range::root() };
        Turn {
            notes,
            next: Next::Run(FindLeafOp { key, parent: None, stage }, Action::PageAddr(ROOT_ID)),
        }
    }

    fn fail(key: Vec<u8>, e: Error) -> (turn: FindLeafTurn)
        ensures
            if e is Again {
                begins_at_root(key, seq![Note::Conflict(Counter::Read)], turn)
            } else {
                turn.ends(Seq::empty(), Err(e))
            },
    {
        match e {
            Error::Again => {
                let mut notes: Vec<Note> = Vec::new();
                notes.push(Note::Conflict(Counter::Read));
                FindLeafOp::begin(key, notes)
            },
            _ => Turn::end(Err(e)),
        }
    }

    fn go_on_with_reconciliation(key: Vec<u8>, reconciliation: ReconcileTurn) -> (turn:
        FindLeafTurn)
        ensures
            goes_on_with_reconciliation(key, reconciliation, turn),
    {
        let notes = reconciliation.notes;
        match reconciliation.next {
            Next::Run(op, action) => Turn {
                notes,
                next: Next::Run(
                    FindLeafOp { key, parent: None, stage: FindStage::Reconcile(op) },
                    action,
                ),
            },
            Next::Done(_) => {
                let mut notes = notes;
                notes.push(Note::Conflict(Counter::Read));
                FindLeafOp::begin(key, notes)
            },
            Next::Halt(halt) => Turn { notes, next: Next::Halt(halt) },
        }
    }

    /// Starts to find the leaf page that may contain the key.
    ///
    /// The result is the leaf page and its parent.
    pub fn start(key: Vec<u8>) -> (turn: FindLeafTurn)
        ensures
            begins_at_root(key, Seq::empty(), turn),
    {
        FindLeafOp::begin(key, Vec::new())
    }

    /// Goes on after an event.
    pub fn step(self, txn: &TreeTxn<'_>, now: Duration, event: Event) -> (turn: FindLeafTurn)
        requires
            event.wf(),
        ensures
            self.steps_to(txn.options(), txn.safe_lsn(), now, event, turn),
    {
        let key = self.key;
        let parent = self.parent;
        match (self.stage, event) {
            (FindStage::Addr { index, range }, Event::Addr(addr)) => Turn::ask(
                FindLeafOp { key, parent, stage: FindStage::Info { index, range, addr } },
                Action::ReadPageInfo(addr),
            ),
            (FindStage::Info { index, range, addr }, Event::Info(page)) => {
                let at = PageHandle { id: index.id, addr, page };
                let view = PageView { at, range: Some(range) };
                // If the page epoch has changed, the page may not contain the data we
                // expect anymore. Try to reconcile pending conflicts and restart the
                // operation.
                //
                // The exchange of the page's address resolves conflicts for modifications
                // within a page, but it doesn't prevent us from modifying the wrong
                // logical page. The epoch tracks the key range of a logical page.
                if page.epoch != index.epoch {
                    let parent_at: Option<PageHandle> = match &parent {
                        Some(parent) => Some(parent.at),
                        None => None,
                    };
                    let reconciliation = ReconcileOp::start(view, parent_at);
                    assert(reconcile_starts(view, handle_of(parent), reconciliation));
                    return FindLeafOp::go_on_with_reconciliation(key, reconciliation);
                }
                if page.tier.is_leaf() {
                    return Turn::end(Ok((view, parent))).report(Note::Success(Counter::Read));
                }
                if addr == 0 {
                    return Turn::halt(Halt::ChildMissing);
                }
                Turn::ask(
                    FindLeafOp { key, parent, stage: FindStage::Child { view } },
                    Action::ReadPage(addr, CacheOption::Default),
                )
            },
            (FindStage::Child { view }, Event::Page(page)) => {
                // Find the child page that may contain the key.
                match child_in_page(&page, key.as_slice()) {
                    Some((index, child_range)) => {
                        // If the child has no range end, use the current one instead.
                        let end = match child_range.end {
                            Some(end) => Some(end),
                            None => match &view.range {
                                Some(range) => match &range.end {
                                    Some(end) => Some(bytes_copy(end.as_slice())),
                                    None => None,
                                },
                                None => None,
                            },
                        };
                        let range = Range { start: child_range.start, end };
                        Turn::ask(
                            FindLeafOp {
                                key,
                                parent: Some(view),
                                stage: FindStage::Addr { index, range },
                            },
                            Action::PageAddr(index.id),
                        )
                    },
                    None => {
                        if page.info.chain_next == 0 {
                            return Turn::halt(Halt::ChildMissing);
                        }
                        Turn::ask(
                            FindLeafOp { key, parent, stage: FindStage::Child { view } },
                            Action::ReadPage(page.info.chain_next, CacheOption::Default),
                        )
                    },
                }
            },
            (FindStage::Reconcile(op), event) => {
                let reconciliation = op.step(txn, now, event);
                assert(op.steps_to(txn.options(), txn.safe_lsn(), now, event, reconciliation));
                FindLeafOp::go_on_with_reconciliation(key, reconciliation)
            },
            (FindStage::Info { .. }, Event::Failed(e)) => FindLeafOp::fail(key, e),
            (FindStage::Child { .. }, Event::Failed(e)) => FindLeafOp::fail(key, e),
            _ => Turn::halt(Halt::UnexpectedEvent),
        }
    }
}

} // verus!
