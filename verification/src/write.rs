//! Writing a key and its value.

use crate::bytes::bytes_copy;
use crate::note::{Counter, Note, Timing};
use crate::page::{built_info, chained_header};
use crate::page::{Draft, Items, Key, PageHandle, PageHeader, PageInfo, PageKind, PageTier, Value,
    ROOT_ID};
use crate::restructure::RestructureOp;
use crate::restructure::{restructure_starts, RestructureTurn};
use crate::search::FindLeafOp;
use crate::search::{is_at_root, FindLeafTurn};
use crate::split::{SplitOp, SplitStage};
use crate::split::{split_starts, SplitTurn};
use crate::tree::TreeTxn;
use crate::tree::{consolidates, splits, Options};
use crate::turn::{Action, Error, Event, Halt, Next, Turn};
use std::time::Duration;
use vstd::prelude::*;

verus! {

/// How far a write has come.
#[derive(Debug)]
pub enum WriteStage {
    /// The leaf page is being searched for.
    Find { search: FindLeafOp, before: Duration },
    /// The leaf page is being split.
    Split { split: SplitOp, at: PageHandle, found_at: Duration },
    /// The transaction is being begun, then the new page built.
    Begin { at: PageHandle, found_at: Duration },
    Build { at: PageHandle, found_at: Duration },
    /// The new page is being put in front of the leaf page.
    Update { at: PageHandle, new_addr: u64, size: usize, built_at: Duration },
    /// Another page came in between, and its header is being read.
    Moved { at: PageHandle, new_addr: u64, size: usize, built_at: Duration, addr: u64 },
    /// The leaf page is being consolidated.
    Restructure(RestructureOp),
}

/// A write of one key.
#[derive(Debug)]
pub struct WriteOp {
    pub key: Key,
    pub value: Value,
    pub start_at: Duration,
    pub stage: WriteStage,
}

pub type WriteTurn = Turn<WriteOp, Result<(), Error>>;

pub type WriteNext = Next<WriteOp, Result<(), Error>>;

/// The draft is of a leaf page with the key and the value alone.
pub open spec fn is_write_draft(draft: Draft, key: Key, value: Value) -> bool {
    &&& draft.tier is Leaf
    &&& draft.kind is Data
    &&& draft.items matches Items::Values(v) && {
        &&& v@.len() == 1
        &&& v@[0].0.raw@ == key.raw@
        &&& v@[0].0.lsn == key.lsn
        &&& v@[0].1.content() == value.content()
    }
}

/// The header of a page that is put in front of a leaf page without changing its range.
pub open spec fn delta_header(at: PageHandle) -> PageHeader {
    chained_header(at.page.epoch, at.page, at.addr)
}

/// The page at `new_addr` is to be put in front of the leaf page.
pub open spec fn update_action(at: PageHandle, new_addr: u64) -> Action {
    Action::UpdatePage { id: at.id, old_addr: at.addr, new_addr, header: delta_header(at) }
}

/// The leaf page once the new page is in front of it.
pub open spec fn updated_leaf(at: PageHandle, new_addr: u64, size: usize) -> PageHandle {
    PageHandle {
        id: at.id,
        addr: new_addr,
        page: built_info(PageTier::Leaf, PageKind::Data, delta_header(at), size),
    }
}

/// The write begins with a search from the root.
pub open spec fn write_begins(
    key: Key,
    value: Value,
    start_at: Duration,
    now: Duration,
    before: Seq<Note>,
    turn: WriteTurn,
) -> bool {
    &&& turn.notes@ =~= before
    &&& turn.next matches Next::Run(op, action)
    &&& op.stage matches WriteStage::Find { search, before: from }
    &&& is_at_root(search, key.raw@)
    &&& from == now
    &&& op == (WriteOp { key, value, start_at, stage: op.stage })
    &&& action == Action::PageAddr(ROOT_ID)
}

impl WriteOp {
    pub open spec fn to(self, stage: WriteStage) -> WriteOp {
        WriteOp { stage, ..self }
    }

    /// After a conflict the write begins again; any other failure ends it.
    pub open spec fn fails(
        self,
        now: Duration,
        before: Seq<Note>,
        e: Error,
        turn: WriteTurn,
    ) -> bool {
        if e is Again {
            write_begins(
                self.key,
                self.value,
                self.start_at,
                now,
                before.push(Note::Conflict(Counter::Write)),
                turn,
            )
        } else {
            turn.ends(before, Err(e))
        }
    }

    /// The write has succeeded.
    pub open spec fn succeeds(self, now: Duration, before: Seq<Note>, turn: WriteTurn) -> bool {
        turn.ends(
            before + seq![
                Note::Success(Counter::Write),
                Note::WriteBytes {
                    key: self.key.raw@.len() as usize,
                    value: match self.value.content() {
                        Some(v) => v.len() as usize,
                        None => 0,
                    },
                },
                Note::Time(Timing::Total, self.start_at, now),
            ],
            Ok(()),
        )
    }

    /// The split of the leaf page goes on or has ended. A page that was split is searched
    /// for again; a page that was not is written to. A split that has ended well right after
    /// the page was read, `reading`, has found that the page cannot be divided.
    pub open spec fn goes_on_with_split(
        self,
        at: PageHandle,
        found_at: Duration,
        now: Duration,
        before: Seq<Note>,
        reading: bool,
        split: SplitTurn,
        turn: WriteTurn,
    ) -> bool {
        let notes = before + split.notes@;
        match split.next {
            Next::Run(op, action) => {
                &&& turn.notes@ =~= notes
                &&& turn.next == WriteNext::Run(
                    self.to(WriteStage::Split { split: op, at, found_at }),
                    action,
                )
            },
            Next::Done(Ok(())) => if reading {
                &&& turn.notes@ =~= notes
                &&& turn.next == WriteNext::Run(
                    self.to(WriteStage::Begin { at, found_at }),
                    Action::Begin,
                )
            } else {
                self.fails(now, notes, Error::Again, turn)
            },
            Next::Done(Err(_)) => {
                &&& turn.notes@ =~= notes
                &&& turn.next == WriteNext::Run(
                    self.to(WriteStage::Begin { at, found_at }),
                    Action::Begin,
                )
            },
            Next::Halt(halt) => {
                &&& turn.notes@ =~= notes
                &&& turn.next == WriteNext::Halt(halt)
            },
        }
    }

    /// The search for the leaf page goes on or has ended.
    pub open spec fn goes_on_with_search(
        self,
        options: Options,
        from: Duration,
        now: Duration,
        search: FindLeafTurn,
        turn: WriteTurn,
    ) -> bool {
        match search.next {
            Next::Run(op, action) => {
                &&& turn.notes@ == search.notes@
                &&& turn.next == WriteNext::Run(
                    self.to(WriteStage::Find { search: op, before: from }),
                    action,
                )
            },
            Next::Done(Ok((view, _))) => {
                let notes = search.notes@.push(Note::Time(Timing::FindLeaf, from, now));
                if splits(options, view.at.page) {
                    exists|split: SplitTurn| #[trigger]
                        split_starts(view.at, now, split) && self.goes_on_with_split(
                            view.at,
                            now,
                            now,
                            notes,
                            false,
                            split,
                            turn,
                        )
                } else {
                    &&& turn.notes@ =~= notes
                    &&& turn.next == WriteNext::Run(
                        self.to(WriteStage::Begin { at: view.at, found_at: now }),
                        Action::Begin,
                    )
                }
            },
            Next::Done(Err(e)) => self.fails(now, search.notes@, e, turn),
            Next::Halt(halt) => {
                &&& turn.notes@ == search.notes@
                &&& turn.next == WriteNext::Halt(halt)
            },
        }
    }

    /// The restructuring of the leaf page goes on or has ended. Whether it succeeds does
    /// not matter.
    pub open spec fn goes_on_with_restructuring(
        self,
        now: Duration,
        before: Seq<Note>,
        restructuring: RestructureTurn,
        turn: WriteTurn,
    ) -> bool {
        let notes = before + restructuring.notes@;
        match restructuring.next {
            Next::Run(op, action) => {
                &&& turn.notes@ =~= notes
                &&& turn.next == WriteNext::Run(self.to(WriteStage::Restructure(op)), action)
            },
            Next::Done(_) => self.succeeds(now, notes, turn),
            Next::Halt(halt) => {
                &&& turn.notes@ =~= notes
                &&& turn.next == WriteNext::Halt(halt)
            },
        }
    }

    /// How the write goes on after an event.
    pub open spec fn steps_to(
        self,
        options: Options,
        safe_lsn: u64,
        now: Duration,
        event: Event,
        turn: WriteTurn,
    ) -> bool {
        match (self.stage, event) {
            (WriteStage::Find { search: op, before }, _) => exists|search: FindLeafTurn| #[trigger]
                op.steps_to(options, safe_lsn, now, event, search) && self.goes_on_with_search(
                    options,
                    before,
                    now,
                    search,
                    turn,
                ),
            (WriteStage::Split { split: op, at, found_at }, _) => exists|split: SplitTurn| #[trigger]
                op.steps_to(now, event, split) && self.goes_on_with_split(
                    at,
                    found_at,
                    now,
                    Seq::empty(),
                    op.stage is Read,
                    split,
                    turn,
                ),
            (WriteStage::Begin { at, found_at }, Event::Begun) => {
                &&& turn.next matches Next::Run(_, action)
                &&& action matches Action::BuildPage(draft)
                &&& is_write_draft(draft, self.key, self.value)
                &&& turn.asks(self.to(WriteStage::Build { at, found_at }), action)
            },
            (WriteStage::Build { at, found_at }, Event::Built { addr, size }) => {
                &&& turn.notes@ =~= seq![Note::Time(Timing::WriteBuildPage, found_at, now)]
                &&& turn.next == WriteNext::Run(
                    self.to(WriteStage::Update { at, new_addr: addr, size, built_at: now }),
                    update_action(at, addr),
                )
            },
            (WriteStage::Update { at, new_addr, size, built_at }, Event::Updated) => {
                let new = updated_leaf(at, new_addr, size);
                let notes = seq![Note::Time(Timing::ReplacePage, built_at, now)];
                if consolidates(options, new.page) {
                    exists|restructuring: RestructureTurn| #[trigger]
                        restructure_starts(options, new, safe_lsn, now, restructuring)
                            && self.goes_on_with_restructuring(now, notes, restructuring, turn)
                } else {
                    self.succeeds(now, notes, turn)
                }
            },
            (WriteStage::Update { .. }, Event::UpdateLost) => self.fails(
                now,
                Seq::empty(),
                Error::Again,
                turn,
            ),
            // We can keep retrying as long as the page epoch remains the same. However, this
            // doesn't work for the root because we split the root without updating its
            // epoch.
            (WriteStage::Update { at, new_addr, size, built_at }, Event::UpdateMoved(addr)) => if at.id
                == ROOT_ID {
                self.fails(now, Seq::empty(), Error::Again, turn)
            } else {
                turn.asks(
                    self.to(WriteStage::Moved { at, new_addr, size, built_at, addr }),
                    Action::ReadPageInfo(addr),
                )
            },
            (WriteStage::Moved { at, new_addr, size, built_at, addr }, Event::Info(page)) => if page.epoch
                == at.page.epoch {
                let at = PageHandle { id: at.id, addr, page };
                turn.asks(
                    self.to(WriteStage::Update { at, new_addr, size, built_at }),
                    update_action(at, new_addr),
                )
            } else {
                self.fails(now, Seq::empty(), Error::Again, turn)
            },
            (WriteStage::Restructure(op), _) => exists|restructuring: RestructureTurn| #[trigger]
                op.steps_to(options, now, event, restructuring) && self.goes_on_with_restructuring(
                    now,
                    Seq::empty(),
                    restructuring,
                    turn,
                ),
            (WriteStage::Build { .. }, Event::Failed(e)) => self.fails(
                now,
                Seq::empty(),
                e,
                turn,
            ),
            (WriteStage::Moved { .. }, Event::Failed(e)) => self.fails(
                now,
                Seq::empty(),
                e,
                turn,
            ),
            _ => turn.halts(Halt::UnexpectedEvent),
        }
    }

    fn begin(
        key: Key,
        value: Value,
        start_at: Duration,
        now: Duration,
        before: Vec<Note>,
    ) -> (turn: WriteTurn)
        ensures
            write_begins(key, value, start_at, now, before@, turn),
    {
        let search = FindLeafOp::start(bytes_copy(key.raw.as_slice()));
        let next = match search.next {
            Next::Run(op, action) => Next::Run(
                WriteOp { key, value, start_at, stage: WriteStage::Find { search: op, before: now } },
                action,
            ),
            Next::Done(_) => Next::Halt(Halt::UnexpectedEvent),
            Next::Halt(halt) => Next::Halt(halt),
        };
        Turn { notes: before, next }
    }

    fn fail(
        key: Key,
        value: Value,
        start_at: Duration,
        now: Duration,
        before: Vec<Note>,
        e: Error,
    ) -> (turn: WriteTurn)
        ensures
            forall|op: WriteOp|
                op.key == key && op.value == value && op.start_at == start_at
                    ==> #[trigger] op.fails(now, before@, e, turn),
    {
        match e {
            Error::Again => {
                let mut notes = before;
                notes.push(Note::Conflict(Counter::Write));
                WriteOp::begin(key, value, start_at, now, notes)
            },
            _ => Turn { notes: before, next: Next::Done(Err(e)) },
        }
    }

    fn succeed(
        key: Key,
        value: Value,
        start_at: Duration,
        now: Duration,
        before: Vec<Note>,
    ) -> (turn: WriteTurn)
        ensures
            forall|op: WriteOp|
                op.key == key && op.value == value && op.start_at == start_at
                    ==> #[trigger] op.succeeds(now, before@, turn),
    {
        let mut notes = before;
        notes.push(Note::Success(Counter::Write));
        notes.push(Note::WriteBytes { key: key.len(), value: value.len() });
        notes.push(Note::Time(Timing::Total, start_at, now));
        Turn { notes, next: Next::Done(Ok(())) }
    }

    fn go_on_with_split(
        key: Key,
        value: Value,
        start_at: Duration,
        at: PageHandle,
        found_at: Duration,
        now: Duration,
        before: Vec<Note>,
        reading: bool,
        split: SplitTurn,
    ) -> (turn: WriteTurn)
        ensures
            forall|op: WriteOp|
                op.key == key && op.value == value && op.start_at == start_at
                    ==> #[trigger] op.goes_on_with_split(
                    at,
                    found_at,
                    now,
                    before@,
                    reading,
                    split,
                    turn,
                ),
    {
        let mut notes = before;
        let mut more = split.notes;
        notes.append(&mut more);
        match split.next {
            Next::Run(op, action) => Turn {
                notes,
                next: Next::Run(
                    WriteOp {
                        key,
                        value,
                        start_at,
                        stage: WriteStage::Split { split: op, at, found_at },
                    },
                    action,
                ),
            },
            Next::Done(Ok(())) if !reading => WriteOp::fail(
                key,
                value,
                start_at,
                now,
                notes,
                Error::Again,
            ),
            Next::Done(_) => Turn {
                notes,
                next: Next::Run(
                    WriteOp { key, value, start_at, stage: WriteStage::Begin { at, found_at } },
                    Action::Begin,
                ),
            },
            Next::Halt(halt) => Turn { notes, next: Next::Halt(halt) },
        }
    }

    fn go_on_with_search(
        key: Key,
        value: Value,
        start_at: Duration,
        txn: &TreeTxn<'_>,
        from: Duration,
        now: Duration,
        search: FindLeafTurn,
    ) -> (turn: WriteTurn)
        ensures
            forall|op: WriteOp|
                op.key == key && op.value == value && op.start_at == start_at
                    ==> #[trigger] op.goes_on_with_search(
                    txn.options(),
                    from,
                    now,
                    search,
                    turn,
                ),
    {
        let mut notes = search.notes;
        match search.next {
            Next::Run(op, action) => Turn {
                notes,
                next: Next::Run(
                    WriteOp {
                        key,
                        value,
                        start_at,
                        stage: WriteStage::Find { search: op, before: from },
                    },
                    action,
                ),
            },
            Next::Done(Ok((view, _))) => {
                let at = view.at;
                notes.push(Note::Time(Timing::FindLeaf, from, now));
                // Try to split the page before every write to avoid starving the split
                // operation due to contentions.
                if txn.should_split_page(&at.page) {
                    let split = SplitOp::start(at, now);
                    assert(split_starts(at, now, split));
                    return WriteOp::go_on_with_split(
                        key,
                        value,
                        start_at,
                        at,
                        now,
                        now,
                        notes,
                        false,
                        split,
                    );
                }
                Turn {
                    notes,
                    next: Next::Run(
                        WriteOp {
                            key,
                            value,
                            start_at,
                            stage: WriteStage::Begin { at, found_at: now },
                        },
                        Action::Begin,
                    ),
                }
            },
            Next::Done(Err(e)) => WriteOp::fail(key, value, start_at, now, notes, e),
            Next::Halt(halt) => Turn { notes, next: Next::Halt(halt) },
        }
    }

    fn go_on_with_restructuring(
        key: Key,
        value: Value,
        start_at: Duration,
        now: Duration,
        before: Vec<Note>,
        restructuring: RestructureTurn,
    ) -> (turn: WriteTurn)
        ensures
            forall|op: WriteOp|
                op.key == key && op.value == value && op.start_at == start_at
                    ==> #[trigger] op.goes_on_with_restructuring(
                    now,
                    before@,
                    restructuring,
                    turn,
                ),
    {
        let mut notes = before;
        let mut more = restructuring.notes;
        notes.append(&mut more);
        match restructuring.next {
            Next::Run(op, action) => Turn {
                notes,
                next: Next::Run(
                    WriteOp { key, value, start_at, stage: WriteStage::Restructure(op) },
                    action,
                ),
            },
            Next::Done(_) => WriteOp::succeed(key, value, start_at, now, notes),
            Next::Halt(halt) => Turn { notes, next: Next::Halt(halt) },
        }
    }

    /// Starts to write the key-value pair to the tree.
    pub fn start(key: Key, value: Value, now: Duration) -> (turn: WriteTurn)
        ensures
            write_begins(key, value, now, now, Seq::empty(), turn),
    {
        WriteOp::begin(key, value, now, now, Vec::new())
    }

    /// Goes on after an event.
    pub fn step(self, txn: &TreeTxn<'_>, now: Duration, event: Event) -> (turn: WriteTurn)
        requires
            event.wf(),
        ensures
            self.steps_to(txn.options(), txn.safe_lsn(), now, event, turn),
    {
        let key = self.key;
        let value = self.value;
        let start_at = self.start_at;
        match (self.stage, event) {
            (WriteStage::Find { search: op, before }, event) => {
                let search = op.step(txn, now, event);
                assert(op.steps_to(txn.options(), txn.safe_lsn(), now, event, search));
                WriteOp::go_on_with_search(key, value, start_at, txn, before, now, search)
            },
            (WriteStage::Split { split: op, at, found_at }, event) => {
                let reading: bool = matches!(op.stage, SplitStage::Read);
                let split = op.step(now, event);
                assert(op.steps_to(now, event, split));
                let notes: Vec<Note> = Vec::new();
                WriteOp::go_on_with_split(
                    key,
                    value,
                    start_at,
                    at,
                    found_at,
                    now,
                    notes,
                    reading,
                    split,
                )
            },
            (WriteStage::Begin { at, found_at }, Event::Begun) => {
                // Build a delta page with the given key-value pair.
                let delta = vec![(key.copy(), value.copy())];
                Turn::ask(
                    WriteOp { key, value, start_at, stage: WriteStage::Build { at, found_at } },
                    Action::BuildPage(
                        Draft {
                            tier: PageTier::Leaf,
                            kind: PageKind::Data,
                            items: Items::Values(delta),
                        },
                    ),
                )
            },
            (WriteStage::Build { at, found_at }, Event::Built { addr, size }) => {
                // Update the corresponding leaf page with the delta.
                let header = PageHeader::chained(at.page.epoch, &at.page, at.addr);
                Turn::ask(
                    WriteOp {
                        key,
                        value,
                        start_at,
                        stage: WriteStage::Update { at, new_addr: addr, size, built_at: now },
                    },
                    Action::UpdatePage { id: at.id, old_addr: at.addr, new_addr: addr, header },
                ).report(Note::Time(Timing::WriteBuildPage, found_at, now))
            },
            (WriteStage::Update { at, new_addr, size, built_at }, Event::Updated) => {
                let header = PageHeader::chained(at.page.epoch, &at.page, at.addr);
                let page = PageInfo::built(PageTier::Leaf, PageKind::Data, &header, size);
                let new = PageHandle { id: at.id, addr: new_addr, page };
                let mut notes: Vec<Note> = Vec::new();
                notes.push(Note::Time(Timing::ReplacePage, built_at, now));
                assert(notes@ =~= seq![Note::Time(Timing::ReplacePage, built_at, now)]);
                // Try to consolidate the page if it is too long.
                if txn.should_consolidate_page(&new.page) {
                    let restructuring = RestructureOp::start(txn, new, now);
                    assert(restructure_starts(
                        txn.options(),
                        new,
                        txn.safe_lsn(),
                        now,
                        restructuring,
                    ));
                    return WriteOp::go_on_with_restructuring(
                        key,
                        value,
                        start_at,
                        now,
                        notes,
                        restructuring,
                    );
                }
                WriteOp::succeed(key, value, start_at, now, notes)
            },
            (WriteStage::Update { .. }, Event::UpdateLost) => WriteOp::fail(
                key,
                value,
                start_at,
                now,
                Vec::new(),
                Error::Again,
            ),
            (WriteStage::Update { at, new_addr, size, built_at }, Event::UpdateMoved(addr)) => {
                // The page has been updated by other transactions.
                if at.id == ROOT_ID {
                    return WriteOp::fail(key, value, start_at, now, Vec::new(), Error::Again);
                }
                Turn::ask(
                    WriteOp {
                        key,
                        value,
                        start_at,
                        stage: WriteStage::Moved { at, new_addr, size, built_at, addr },
                    },
                    Action::ReadPageInfo(addr),
                )
            },
            (WriteStage::Moved { at, new_addr, size, built_at, addr }, Event::Info(page)) => {
                if page.epoch != at.page.epoch {
                    return WriteOp::fail(key, value, start_at, now, Vec::new(), Error::Again);
                }
                let at = PageHandle { id: at.id, addr, page };
                let header = PageHeader::chained(at.page.epoch, &at.page, at.addr);
                Turn::ask(
                    WriteOp {
                        key,
                        value,
                        start_at,
                        stage: WriteStage::Update { at, new_addr, size, built_at },
                    },
                    Action::UpdatePage { id: at.id, old_addr: at.addr, new_addr, header },
                )
            },
            (WriteStage::Restructure(op), event) => {
                let restructuring = op.step(txn, now, event);
                assert(op.steps_to(txn.options(), now, event, restructuring));
                let notes: Vec<Note> = Vec::new();
                WriteOp::go_on_with_restructuring(
                    key,
                    value,
                    start_at,
                    now,
                    notes,
                    restructuring,
                )
            },
            (WriteStage::Build { .. }, Event::Failed(e)) => WriteOp::fail(
                key,
                value,
                start_at,
                now,
                Vec::new(),
                e,
            ),
            (WriteStage::Moved { .. }, Event::Failed(e)) => WriteOp::fail(
                key,
                value,
                start_at,
                now,
                Vec::new(),
                e,
            ),
            _ => Turn::halt(Halt::UnexpectedEvent),
        }
    }
}

} // verus!
