//! Getting the value of a key.

use crate::bytes::bytes_copy;
use crate::lookup::page_value;
use crate::lookup::value_in_page;
use crate::note::{Note, Timing};
use crate::page::Key;
use crate::search::FindLeafOp;
use crate::search::{is_at_root, FindLeafTurn};
use crate::tree::Options;
use crate::tree::TreeTxn;
use crate::page::ROOT_ID;
use crate::turn::{Action, CacheOption, Error, Event, Halt, Next, Turn};
use std::time::Duration;
use vstd::prelude::*;

verus! {

/// How far a read has come.
#[derive(Debug)]
pub enum GetStage {
    /// The leaf page is being searched for.
    Find(FindLeafOp),
    /// The leaf page was found at this time, and its chain is being searched for the key.
    Walk { found_at: Duration },
}

/// A read of one key.
#[derive(Debug)]
pub struct GetOp {
    pub key: Key,
    pub start_at: Duration,
    pub stage: GetStage,
}

pub type GetTurn = Turn<GetOp, Result<Option<Vec<u8>>, Error>>;

pub type GetNext = Next<GetOp, Result<Option<Vec<u8>>, Error>>;

/// The value as a plain byte string.
pub open spec fn value_view(value: Option<Vec<u8>>) -> Option<Seq<u8>> {
    match value {
        Some(v) => Some(v@),
        None => None,
    }
}

/// The read begins with a search from the root.
pub open spec fn get_begins(key: Key, now: Duration, turn: GetTurn) -> bool {
    &&& turn.next matches Next::Run(op, _)
    &&& op.stage matches GetStage::Find(search)
    &&& is_at_root(search, key.raw@)
    &&& turn.asks(
        GetOp { key, start_at: now, stage: op.stage },
        Action::PageAddr(ROOT_ID),
    )
}

impl GetOp {
    pub open spec fn to(self, stage: GetStage) -> GetOp {
        GetOp { stage, ..self }
    }

    /// The read ends with the value.
    pub open spec fn ends_with(
        self,
        before: Seq<Note>,
        found_at: Duration,
        now: Duration,
        value: Option<Seq<u8>>,
        turn: GetTurn,
    ) -> bool {
        &&& turn.notes@ =~= before + seq![
            Note::Time(Timing::FindValue, self.start_at, found_at),
            Note::ReadBytes {
                key: self.key.raw@.len() as usize,
                value: match value {
                    Some(v) => v.len() as usize,
                    None => 0,
                },
            },
            Note::Time(Timing::Total, self.start_at, now),
        ]
        &&& turn.next matches Next::Done(Ok(found))
        &&& value_view(found) == value
    }

    /// The search for the leaf goes on or has ended.
    pub open spec fn goes_on_with_search(
        self,
        now: Duration,
        search: FindLeafTurn,
        turn: GetTurn,
    ) -> bool {
        match search.next {
            Next::Run(op, action) => {
                &&& turn.notes@ == search.notes@
                &&& turn.next == GetNext::Run(self.to(GetStage::Find(op)), action)
            },
            Next::Done(Ok((view, _))) => if view.at.addr == 0 {
                self.ends_with(search.notes@, now, now, None, turn)
            } else {
                &&& turn.notes@ == search.notes@
                &&& turn.next == GetNext::Run(
                    self.to(GetStage::Walk { found_at: now }),
                    Action::ReadPage(view.at.addr, CacheOption::Default),
                )
            },
            Next::Done(Err(e)) => turn.ends(search.notes@, Err(e)),
            Next::Halt(halt) => {
                &&& turn.notes@ == search.notes@
                &&& turn.next == GetNext::Halt(halt)
            },
        }
    }

    /// How the read goes on after an event.
    pub open spec fn steps_to(
        self,
        options: Options,
        safe_lsn: u64,
        now: Duration,
        event: Event,
        turn: GetTurn,
    ) -> bool {
        match (self.stage, event) {
            (GetStage::Find(op), _) => exists|search: FindLeafTurn| #[trigger]
                op.steps_to(options, safe_lsn, now, event, search) && self.goes_on_with_search(
                    now,
                    search,
                    turn,
                ),
            (GetStage::Walk { found_at }, Event::Page(page)) => match page_value(
                page,
                self.key.raw@,
                self.key.lsn,
            ) {
                Some(value) => self.ends_with(Seq::empty(), found_at, now, value, turn),
                None => if page.info.chain_next == 0 {
                    self.ends_with(Seq::empty(), found_at, now, None, turn)
                } else {
                    turn.asks(self, Action::ReadPage(page.info.chain_next, CacheOption::Default))
                },
            },
            (GetStage::Walk { .. }, Event::Failed(e)) => turn.ends(Seq::empty(), Err(e)),
            _ => turn.halts(Halt::UnexpectedEvent),
        }
    }

    fn end(
        key: &Key,
        start_at: Duration,
        before: Vec<Note>,
        found_at: Duration,
        now: Duration,
        value: Option<Vec<u8>>,
    ) -> (turn: GetTurn)
        ensures
            forall|op: GetOp|
                op.key == *key && op.start_at == start_at ==> #[trigger] op.ends_with(
                    before@,
                    found_at,
                    now,
                    value_view(value),
                    turn,
                ),
    {
        let value_size: usize = match &value {
            Some(v) => v.len(),
            None => 0,
        };
        let mut notes = before;
        notes.push(Note::Time(Timing::FindValue, start_at, found_at));
        notes.push(Note::ReadBytes { key: key.len(), value: value_size });
        notes.push(Note::Time(Timing::Total, start_at, now));
        Turn { notes, next: Next::Done(Ok(value)) }
    }

    /// Starts to get the value corresponding to the key.
    pub fn start(key: Key, now: Duration) -> (turn: GetTurn)
        ensures
            get_begins(key, now, turn),
    {
        let search = FindLeafOp::start(bytes_copy(key.raw.as_slice()));
        let notes = search.notes;
        let next = match search.next {
            Next::Run(op, action) => Next::Run(
                GetOp { key, start_at: now, stage: GetStage::Find(op) },
                action,
            ),
            Next::Done(_) => Next::Halt(Halt::UnexpectedEvent),
            Next::Halt(halt) => Next::Halt(halt),
        };
        Turn { notes, next }
    }

    /// Goes on after an event.
    pub fn step(self, txn: &TreeTxn<'_>, now: Duration, event: Event) -> (turn: GetTurn)
        requires
            event.wf(),
        ensures
            self.steps_to(txn.options(), txn.safe_lsn(), now, event, turn),
    {
        let key = self.key;
        let start_at = self.start_at;
        match (self.stage, event) {
            (GetStage::Find(op), event) => {
                let search = op.step(txn, now, event);
                assert(op.steps_to(txn.options(), txn.safe_lsn(), now, event, search));
                let notes = search.notes;
                match search.next {
                    Next::Run(op, action) => Turn {
                        notes,
                        next: Next::Run(
                            GetOp { key, start_at, stage: GetStage::Find(op) },
                            action,
                        ),
                    },
                    Next::Done(Ok((view, _))) => {
                        if view.at.addr == 0 {
                            return GetOp::end(&key, start_at, notes, now, now, None);
                        }
                        Turn {
                            notes,
                            next: Next::Run(
                                GetOp { key, start_at, stage: GetStage::Walk { found_at: now } },
                                Action::ReadPage(view.at.addr, CacheOption::Default),
                            ),
                        }
                    },
                    Next::Done(Err(e)) => Turn { notes, next: Next::Done(Err(e)) },
                    Next::Halt(halt) => Turn { notes, next: Next::Halt(halt) },
                }
            },
            (GetStage::Walk { found_at }, Event::Page(page)) => {
                match value_in_page(&page, &key) {
                    Some(value) => GetOp::end(&key, start_at, Vec::new(), found_at, now, value),
                    None => {
                        if page.info.chain_next == 0 {
                            return GetOp::end(&key, start_at, Vec::new(), found_at, now, None);
                        }
                        Turn::ask(
                            GetOp { key, start_at, stage: GetStage::Walk { found_at } },
                            Action::ReadPage(page.info.chain_next, CacheOption::Default),
                        )
                    },
                }
            },
            (GetStage::Walk { .. }, Event::Failed(e)) => Turn::end(Err(e)),
            _ => Turn::halt(Halt::UnexpectedEvent),
        }
    }
}

} // verus!
