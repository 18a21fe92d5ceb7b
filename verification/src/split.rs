//! Splitting a page in two halves.

use crate::merge::split_items;
use crate::merge::{is_part, split_index};
use crate::note::{Counter, Note, Timing};
use crate::page::{base_header, chained_header};
use crate::page::{Draft, Index, Items, PageHandle, PageHeader, PageKind, PageTier, BASE_CHAIN_LEN,
    ROOT_ID};
use crate::turn::{Action, CacheOption, Error, Event, Halt, Turn};
use crate::turn::Next;
use std::time::Duration;
use vstd::prelude::*;

verus! {

/// The page splits only if it is data and stands alone.
pub open spec fn is_base_data(at: PageHandle) -> bool {
    at.page.kind is Data && at.page.chain_next == 0
}

/// What a split root must be.
pub open spec fn is_base_root(at: PageHandle) -> bool {
    at.page.epoch == 0 && at.page.chain_len == BASE_CHAIN_LEN
}

/// The draft of a data page with the given contents.
pub open spec fn data_draft(tier: PageTier, items: Items) -> Draft {
    Draft { tier, kind: PageKind::Data, items }
}

/// The draft announces that the keys from `split_key` on have gone to the page
/// `right_id`.
pub open spec fn is_split_draft(
    draft: Draft,
    tier: PageTier,
    split_key: Seq<u8>,
    right_id: u64,
) -> bool {
    &&& draft.tier == tier
    &&& draft.kind is Split
    &&& draft.items matches Items::Indexes(v) && {
        &&& v@.len() == 1
        &&& v@[0].0@ == split_key
        &&& v@[0].1 == (Index { id: right_id, epoch: 0 })
    }
}

/// The draft is of a root over two pages that part at `split_key`.
pub open spec fn is_root_draft(
    draft: Draft,
    left_id: u64,
    split_key: Seq<u8>,
    right_id: u64,
) -> bool {
    &&& draft.tier is Inner
    &&& draft.kind is Data
    &&& draft.items matches Items::Indexes(v) && {
        &&& v@.len() == 2
        &&& v@[0].0@ == Seq::<u8>::empty()
        &&& v@[0].1 == (Index { id: left_id, epoch: 0 })
        &&& v@[1].0@ == split_key
        &&& v@[1].1 == (Index { id: right_id, epoch: 0 })
    }
}

/// How far a split has come.
#[derive(Debug)]
pub enum SplitStage {
    /// The page is being read.
    Read,
    /// The transaction is being begun.
    Begin { split_key: Vec<u8>, left: Items, right: Items },
    /// The left page of a split root is being built, then inserted.
    BuildLeft { split_key: Vec<u8>, right: Items },
    InsertLeft { split_key: Vec<u8>, right: Items },
    /// The right page is being built, then inserted. Only a split root has a new left
    /// page.
    BuildRight { split_key: Vec<u8>, left_id: Option<u64> },
    InsertRight { split_key: Vec<u8>, left_id: Option<u64> },
    /// The page that announces the split is being built, then put in front.
    BuildDelta,
    Update,
    /// The new root is being built, then put in place of the old one.
    BuildRoot,
    Replace,
}

/// A split of one page.
#[derive(Debug)]
pub struct SplitOp {
    pub at: PageHandle,
    pub start_at: Duration,
    pub stage: SplitStage,
}

pub type SplitTurn = Turn<SplitOp, Result<(), Error>>;

/// How a split of the page starts.
pub open spec fn split_starts(at: PageHandle, now: Duration, turn: SplitTurn) -> bool {
    if !is_base_data(at) {
        turn.ends(Seq::empty(), Err(Error::InvalidArgument))
    } else if at.id == ROOT_ID && !is_base_root(at) {
        turn.halts(Halt::RootNotBase)
    } else {
        turn.asks(
            SplitOp { at, start_at: now, stage: SplitStage::Read },
            Action::ReadPage(at.addr, CacheOption::Default),
        )
    }
}

impl SplitOp {
    /// The split at another stage.
    pub open spec fn to(self, stage: SplitStage) -> SplitOp {
        SplitOp { stage, ..self }
    }

    /// How the split goes on after an event.
    pub open spec fn steps_to(self, now: Duration, event: Event, turn: SplitTurn) -> bool {
        let tier = self.at.page.tier;
        match (self.stage, event) {
            (SplitStage::Read, Event::Page(page)) => match split_index(page.items) {
                None => turn.ends(Seq::empty(), Ok(())),
                Some(i) => {
                    &&& turn.next matches Next::Run(op, _)
                    &&& op.stage matches SplitStage::Begin { split_key, left, right }
                    &&& split_key@ == page.items.raw(i)
                    &&& is_part(left, page.items, 0, i)
                    &&& is_part(right, page.items, i, page.items.count() as int)
                    &&& turn.asks(self.to(op.stage), Action::Begin)
                },
            },
            (SplitStage::Begin { split_key, left, right }, Event::Begun) => if self.at.id
                == ROOT_ID {
                turn.asks(
                    self.to(SplitStage::BuildLeft { split_key, right }),
                    Action::BuildPage(data_draft(tier, left)),
                )
            } else {
                turn.asks(
                    self.to(SplitStage::BuildRight { split_key, left_id: None }),
                    Action::BuildPage(data_draft(tier, right)),
                )
            },
            (SplitStage::BuildLeft { split_key, right }, Event::Built { addr, .. }) => turn.asks(
                self.to(SplitStage::InsertLeft { split_key, right }),
                Action::InsertPage(addr),
            ),
            (SplitStage::InsertLeft { split_key, right }, Event::Inserted(id)) => turn.asks(
                self.to(SplitStage::BuildRight { split_key, left_id: Some(id) }),
                Action::BuildPage(data_draft(tier, right)),
            ),
            (SplitStage::BuildRight { split_key, left_id }, Event::Built { addr, .. }) => turn.asks(
                self.to(SplitStage::InsertRight { split_key, left_id }),
                Action::InsertPage(addr),
            ),
            (SplitStage::InsertRight { split_key, left_id }, Event::Inserted(right_id)) => {
                &&& turn.next matches Next::Run(_, action)
                &&& action matches Action::BuildPage(draft)
                &&& match left_id {
                    None => {
                        &&& is_split_draft(draft, tier, split_key@, right_id)
                        &&& turn.asks(self.to(SplitStage::BuildDelta), action)
                    },
                    Some(left_id) => {
                        &&& is_root_draft(draft, left_id, split_key@, right_id)
                        &&& turn.asks(self.to(SplitStage::BuildRoot), action)
                    },
                }
            },
            // The page epoch must be updated to indicate the change of the page range.
            (SplitStage::BuildDelta, Event::Built { addr, .. }) => if self.at.page.epoch
                == u64::MAX {
                turn.halts(Halt::Overflow)
            } else {
                turn.asks(
                    self.to(SplitStage::Update),
                    Action::UpdatePage {
                        id: self.at.id,
                        old_addr: self.at.addr,
                        new_addr: addr,
                        header: chained_header(
                            (self.at.page.epoch + 1) as u64,
                            self.at.page,
                            self.at.addr,
                        ),
                    },
                )
            },
            (SplitStage::Update, Event::Updated) => turn.ends(
                seq![
                    Note::Success(Counter::SplitPage),
                    Note::Time(Timing::SplitPage, self.start_at, now),
                ],
                Ok(()),
            ),
            (SplitStage::Update, Event::UpdateLost) => turn.ends(
                seq![Note::Conflict(Counter::SplitPage)],
                Err(Error::Again),
            ),
            (SplitStage::Update, Event::UpdateMoved(_)) => turn.ends(
                seq![Note::Conflict(Counter::SplitPage)],
                Err(Error::Again),
            ),
            (SplitStage::BuildRoot, Event::Built { addr, .. }) => {
                &&& turn.next matches Next::Run(_, action)
                &&& action matches Action::ReplacePage {
                    id,
                    old_addr,
                    new_addr,
                    header,
                    dealloc_addrs,
                }
                &&& id == self.at.id
                &&& old_addr == self.at.addr
                &&& new_addr == addr
                &&& header == base_header()
                &&& dealloc_addrs@ == seq![self.at.addr]
                &&& turn.asks(self.to(SplitStage::Replace), action)
            },
            (SplitStage::Replace, Event::Replaced) => turn.ends(
                seq![Note::Success(Counter::SplitPage)],
                Ok(()),
            ),
            (SplitStage::Replace, Event::ReplaceFailed) => turn.ends(
                seq![Note::Conflict(Counter::SplitPage)],
                Err(Error::Again),
            ),
            (SplitStage::Read, Event::Failed(e)) => turn.ends(Seq::empty(), Err(e)),
            (SplitStage::BuildLeft { .. }, Event::Failed(e)) => turn.ends(Seq::empty(), Err(e)),
            (SplitStage::BuildRight { .. }, Event::Failed(e)) => turn.ends(Seq::empty(), Err(e)),
            (SplitStage::BuildDelta, Event::Failed(e)) => turn.ends(Seq::empty(), Err(e)),
            (SplitStage::BuildRoot, Event::Failed(e)) => turn.ends(Seq::empty(), Err(e)),
            _ => turn.halts(Halt::UnexpectedEvent),
        }
    }

    /// Starts to split the page into two halves.
    pub fn start(at: PageHandle, now: Duration) -> (turn: SplitTurn)
        ensures
            split_starts(at, now, turn),
    {
        // We can only split base data pages.
        if !at.page.kind.is_data() || at.page.chain_next != 0 {
            return Turn::end(Err(Error::InvalidArgument));
        }
        if at.id == ROOT_ID && !(at.page.epoch == 0 && at.page.chain_len == BASE_CHAIN_LEN) {
            return Turn::halt(Halt::RootNotBase);
        }
        Turn::ask(
            SplitOp { at, start_at: now, stage: SplitStage::Read },
            Action::ReadPage(at.addr, CacheOption::Default),
        )
    }

    /// Goes on after an event.
    pub fn step(self, now: Duration, event: Event) -> (turn: SplitTurn)
        ensures
            self.steps_to(now, event, turn),
    {
        let at = self.at;
        let start_at = self.start_at;
        let tier = at.page.tier;
        match (self.stage, event) {
            (SplitStage::Read, Event::Page(page)) => match split_items(page.items) {
                None => Turn::end(Ok(())),
                Some((split_key, left, right)) => Turn::ask(
                    SplitOp { at, start_at, stage: SplitStage::Begin { split_key, left, right } },
                    Action::Begin,
                ),
            },
            (SplitStage::Begin { split_key, left, right }, Event::Begun) => {
                if at.id == ROOT_ID {
                    Turn::ask(
                        SplitOp { at, start_at, stage: SplitStage::BuildLeft { split_key, right } },
                        Action::BuildPage(Draft { tier, kind: PageKind::Data, items: left }),
                    )
                } else {
                    Turn::ask(
                        SplitOp {
                            at,
                            start_at,
                            stage: SplitStage::BuildRight { split_key, left_id: None },
                        },
                        Action::BuildPage(Draft { tier, kind: PageKind::Data, items: right }),
                    )
                }
            },
            (SplitStage::BuildLeft { split_key, right }, Event::Built { addr, .. }) => Turn::ask(
                SplitOp { at, start_at, stage: SplitStage::InsertLeft { split_key, right } },
                Action::InsertPage(addr),
            ),
            (SplitStage::InsertLeft { split_key, right }, Event::Inserted(id)) => Turn::ask(
                SplitOp {
                    at,
                    start_at,
                    stage: SplitStage::BuildRight { split_key, left_id: Some(id) },
                },
                Action::BuildPage(Draft { tier, kind: PageKind::Data, items: right }),
            ),
            (SplitStage::BuildRight { split_key, left_id }, Event::Built { addr, .. }) => Turn::ask(
                SplitOp { at, start_at, stage: SplitStage::InsertRight { split_key, left_id } },
                Action::InsertPage(addr),
            ),
            (SplitStage::InsertRight { split_key, left_id }, Event::Inserted(right_id)) => {
                match left_id {
                    None => {
                        // Build a delta page with the right index.
                        let delta = vec![(split_key, Index::new(right_id, 0))];
                        Turn::ask(
                            SplitOp { at, start_at, stage: SplitStage::BuildDelta },
                            Action::BuildPage(
                                Draft {
                                    tier,
                                    kind: PageKind::Split,
                                    items: Items::Indexes(delta),
                                },
                            ),
                        )
                    },
                    Some(left_id) => {
                        let first: Vec<u8> = Vec::new();
                        let delta = vec![
                            (first, Index::new(left_id, 0)),
                            (split_key, Index::new(right_id, 0)),
                        ];
                        Turn::ask(
                            SplitOp { at, start_at, stage: SplitStage::BuildRoot },
                            Action::BuildPage(
                                Draft {
                                    tier: PageTier::Inner,
                                    kind: PageKind::Data,
                                    items: Items::Indexes(delta),
                                },
                            ),
                        )
                    },
                }
            },
            (SplitStage::BuildDelta, Event::Built { addr, .. }) => {
                if at.page.epoch == u64::MAX {
                    return Turn::halt(Halt::Overflow);
                }
                // Update the left page with the delta.
                Turn::ask(
                    SplitOp { at, start_at, stage: SplitStage::Update },
                    Action::UpdatePage {
                        id: at.id,
                        old_addr: at.addr,
                        new_addr: addr,
                        header: PageHeader::chained(at.page.epoch + 1, &at.page, at.addr),
                    },
                )
            },
            (SplitStage::Update, Event::Updated) => Turn::end(Ok(())).report(
                Note::Success(Counter::SplitPage),
            ).report(Note::Time(Timing::SplitPage, start_at, now)),
            (SplitStage::Update, Event::UpdateLost) => Turn::end(
                Err(Error::Again),
            ).report(Note::Conflict(Counter::SplitPage)),
            (SplitStage::Update, Event::UpdateMoved(_)) => Turn::end(
                Err(Error::Again),
            ).report(Note::Conflict(Counter::SplitPage)),
            (SplitStage::BuildRoot, Event::Built { addr, .. }) => {
                // Replace and deallocate the old root.
                let dealloc_addrs = vec![at.addr];
                assert(dealloc_addrs@ =~= seq![at.addr]);
                Turn::ask(
                    SplitOp { at, start_at, stage: SplitStage::Replace },
                    Action::ReplacePage {
                        id: at.id,
                        old_addr: at.addr,
                        new_addr: addr,
                        header: PageHeader::base(),
                        dealloc_addrs,
                    },
                )
            },
            (SplitStage::Replace, Event::Replaced) => Turn::end(Ok(())).report(
                Note::Success(Counter::SplitPage),
            ),
            (SplitStage::Replace, Event::ReplaceFailed) => Turn::end(
                Err(Error::Again),
            ).report(Note::Conflict(Counter::SplitPage)),
            (SplitStage::Read, Event::Failed(e)) => Turn::end(Err(e)),
            (SplitStage::BuildLeft { .. }, Event::Failed(e)) => Turn::end(Err(e)),
            (SplitStage::BuildRight { .. }, Event::Failed(e)) => Turn::end(Err(e)),
            (SplitStage::BuildDelta, Event::Failed(e)) => Turn::end(Err(e)),
            (SplitStage::BuildRoot, Event::Failed(e)) => Turn::end(Err(e)),
            _ => Turn::halt(Halt::UnexpectedEvent),
        }
    }
}

} // verus!
