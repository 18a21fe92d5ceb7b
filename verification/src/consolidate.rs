//! Consolidating the pages of a chain into one page.

use crate::laws::order::{law_consolidated_children_are_sorted,
    law_consolidated_versions_are_sorted};
use crate::lookup::{is_split_delta, split_delta_from_page};
use crate::lookup::{has_split_delta, split_delta};
use crate::merge::{drop_dead_children, drop_old_versions, limit_items, merge_pages};
use crate::merge::{limit_view, limited, live_children, merged, needed_versions};
use crate::note::{Counter, Note, Timing};
use crate::page::{built_info, sorted};
use crate::page::{Draft, Index, Items, Key, Page, PageHandle, PageHeader, PageInfo, PageKind,
    PageTier, Value};
use crate::tree::TreeTxn;
use crate::tree::{consolidates, Options};
use crate::turn::{Action, CacheOption, Error, Event, Halt, Next, Turn};
use std::time::Duration;
use vstd::prelude::*;

verus! {

/// The contents of data pages of one tier, newest first.
#[derive(Debug)]
pub enum Collected {
    Values(Vec<Vec<(Key, Value)>>),
    Indexes(Vec<Vec<(Vec<u8>, Index)>>),
}

impl Collected {
    pub open spec fn count(self) -> nat {
        match self {
            Collected::Values(v) => v@.len(),
            Collected::Indexes(v) => v@.len(),
        }
    }

    /// The contents of each page are in order.
    pub open spec fn sorted(self) -> bool {
        match self {
            Collected::Values(v) => forall|i: int|
                0 <= i < v@.len() ==> sorted(#[trigger] v@[i]@),
            Collected::Indexes(v) => forall|i: int|
                0 <= i < v@.len() ==> sorted(#[trigger] v@[i]@),
        }
    }

    /// Nothing has been collected from pages of this tier.
    pub open spec fn empty_for(self, tier: PageTier) -> bool {
        &&& self.count() == 0
        &&& self is Values <==> tier is Leaf
    }

    /// The contents of a page belong here.
    pub open spec fn takes(self, items: Items) -> bool {
        self is Values <==> items is Values
    }

    /// The contents of one more page, which is older than the others.
    pub open spec fn extended(self, items: Items, more: Collected) -> bool {
        match (self, items, more) {
            (
                Collected::Values(v),
                Items::Values(i),
                Collected::Values(m),
            ) => m@ == v@.push(i),
            (
                Collected::Indexes(v),
                Items::Indexes(i),
                Collected::Indexes(m),
            ) => m@ == v@.push(i),
            _ => false,
        }
    }

    pub fn new(tier: PageTier) -> (r: Self)
        ensures
            r.empty_for(tier),
    {
        match tier {
            PageTier::Leaf => Collected::Values(Vec::new()),
            PageTier::Inner => Collected::Indexes(Vec::new()),
        }
    }

    fn len(&self) -> (n: usize)
        ensures
            n == self.count(),
    {
        match self {
            Collected::Values(v) => v.len(),
            Collected::Indexes(v) => v.len(),
        }
    }

    /// Adds the contents of a page that is older than the others, or hands everything
    /// back where they do not belong here.
    pub fn add_page(self, items: Items) -> (r: Result<Collected, Collected>)
        ensures
            match r {
                Ok(more) => self.extended(items, more),
                Err(same) => same == self && !self.takes(items),
            },
    {
        match (self, items) {
            (Collected::Values(v), Items::Values(i)) => {
                let mut v = v;
                v.push(i);
                Ok(Collected::Values(v))
            },
            (Collected::Indexes(v), Items::Indexes(i)) => {
                let mut v = v;
                v.push(i);
                Ok(Collected::Indexes(v))
            },
            (same, _) => Err(same),
        }
    }
}

/// `items` is what one page holds that takes the place of the collected pages: of the
/// keys before the limit, what readers at `safe_lsn` or later can see.
pub open spec fn is_consolidated(
    items: Items,
    pages: Collected,
    limit: Option<Seq<u8>>,
    safe_lsn: u64,
) -> bool {
    match (items, pages) {
        (Items::Values(i), Collected::Values(v)) => i@ == needed_versions(
            limited(merged(v@), limit),
            safe_lsn,
        ),
        (Items::Indexes(i), Collected::Indexes(v)) => i@ == live_children(
            limited(merged(v@), limit),
        ),
        _ => false,
    }
}

/// Merges the collected pages into the contents of one page.
pub fn consolidate_items(pages: Collected, limit: &Option<Vec<u8>>, safe_lsn: u64) -> (r: Items)
    ensures
        is_consolidated(r, pages, limit_view(*limit), safe_lsn),
        pages.sorted() ==> r.sorted(),
{
    proof {
        if pages.sorted() {
            match &pages {
                Collected::Values(v) => {
                    law_consolidated_versions_are_sorted(v@, limit_view(*limit), safe_lsn);
                },
                Collected::Indexes(v) => {
                    law_consolidated_children_are_sorted(v@, limit_view(*limit));
                },
            }
        }
    }
    match pages {
        Collected::Values(v) => Items::Values(
            drop_old_versions(limit_items(merge_pages(v), limit), safe_lsn),
        ),
        Collected::Indexes(v) => Items::Indexes(
            drop_dead_children(limit_items(merge_pages(v), limit)),
        ),
    }
}

/// What is known of the pages that will be consolidated.
#[derive(Debug)]
pub struct ConsolidationInfo {
    /// The contents of the data pages.
    pub pages: Collected,
    /// The size of the data pages.
    pub page_size: usize,
    /// The header of the last page.
    pub last_page: PageInfo,
    /// The addresses of the pages.
    pub page_addrs: Vec<u64>,
    /// The end of the range of keys that are left after splits.
    pub range_limit: Option<Vec<u8>>,
}

/// What a visit to a page of the chain says.
#[derive(Debug)]
pub enum Visit {
    /// The page is one more to consolidate.
    Take(ConsolidationInfo),
    /// The pages before this one are enough.
    Stop(ConsolidationInfo),
    Halt(Halt),
}

impl ConsolidationInfo {
    /// No page of the chain that starts with `page` has been visited.
    pub open spec fn is_new(self, page: PageInfo) -> bool {
        &&& self.pages.empty_for(page.tier)
        &&& self.page_size == 0
        &&& self.last_page == page
        &&& self.page_addrs@ == Seq::<u64>::empty()
        &&& self.range_limit is None
    }

    /// The page is a leaf page that is so much larger than the ones before it that it is
    /// better left alone, and no split forbids that.
    pub open spec fn enough_before(self, options: Options, page: PageInfo) -> bool {
        &&& page.kind is Data
        &&& page.tier is Leaf
        &&& self.pages.count() >= 2
        &&& self.page_size < page.size / 2
        &&& self.range_limit is None
        &&& !consolidates(options, page)
    }

    /// The page counts as visited too.
    pub open spec fn with_page(self, addr: u64, page: Page, more: ConsolidationInfo) -> bool {
        &&& more.page_addrs@ == self.page_addrs@.push(addr)
        &&& more.last_page == page.info
        &&& match page.info.kind {
            PageKind::Data => {
                &&& self.pages.extended(page.items, more.pages)
                &&& more.page_size == self.page_size + page.info.size
                &&& more.range_limit == self.range_limit
            },
            PageKind::Split => {
                &&& more.pages == self.pages
                &&& more.page_size == self.page_size
                &&& match self.range_limit {
                    Some(_) => more.range_limit == self.range_limit,
                    None => limit_view(more.range_limit) == Some(split_delta(page).0),
                }
            },
        }
    }

    /// Why the page cannot be visited, if so.
    pub open spec fn objection(self, page: Page) -> Option<Halt> {
        match page.info.kind {
            PageKind::Data => if !self.pages.takes(page.items) {
                Some(Halt::TierMismatch)
            } else if self.page_size + page.info.size > usize::MAX {
                Some(Halt::Overflow)
            } else {
                None
            },
            PageKind::Split => if self.range_limit is None && !has_split_delta(page) {
                Some(Halt::SplitDeltaMissing)
            } else {
                None
            },
        }
    }

    pub fn new(page: PageInfo) -> (r: Self)
        ensures
            r.is_new(page),
    {
        let r = ConsolidationInfo {
            pages: Collected::new(page.tier),
            page_size: 0,
            last_page: page,
            page_addrs: Vec::new(),
            range_limit: None,
        };
        assert(r.page_addrs@ =~= Seq::<u64>::empty());
        r
    }

    /// Visits a page of the chain.
    pub fn visit(self, txn: &TreeTxn<'_>, addr: u64, page: Page) -> (r: Visit)
        ensures
            match r {
                Visit::Stop(same) => self.enough_before(txn.options(), page.info) && same == self,
                Visit::Take(more) => {
                    &&& !self.enough_before(txn.options(), page.info)
                    &&& self.objection(page) is None
                    &&& self.with_page(addr, page, more)
                },
                Visit::Halt(halt) => {
                    &&& !self.enough_before(txn.options(), page.info)
                    &&& self.objection(page) == Some(halt)
                },
            },
    {
        let info = page.info;
        match info.kind {
            PageKind::Data => {
                // Inner pages can not do partial consolidations because of the
                // placeholders. This is fine since inner pages doesn't consolidate as
                // often as leaf pages.
                if info.tier.is_leaf() && self.pages.len() >= 2 && self.page_size < info.size / 2
                    && self.range_limit.is_none() && !txn.should_consolidate_page(&info) {
                    return Visit::Stop(self);
                }
                let pages = match self.pages.add_page(page.items) {
                    Ok(pages) => pages,
                    Err(_) => {
                        return Visit::Halt(Halt::TierMismatch);
                    },
                };
                let page_size: usize = match self.page_size.checked_add(info.size) {
                    Some(size) => size,
                    None => {
                        return Visit::Halt(Halt::Overflow);
                    },
                };
                let mut page_addrs = self.page_addrs;
                page_addrs.push(addr);
                Visit::Take(
                    ConsolidationInfo {
                        pages,
                        page_size,
                        last_page: info,
                        page_addrs,
                        range_limit: self.range_limit,
                    },
                )
            },
            PageKind::Split => {
                let range_limit = match self.range_limit {
                    Some(limit) => Some(limit),
                    None => {
                        if !is_split_delta(&page) {
                            return Visit::Halt(Halt::SplitDeltaMissing);
                        }
                        let (split_key, _) = split_delta_from_page(&page);
                        Some(split_key)
                    },
                };
                let mut page_addrs = self.page_addrs;
                page_addrs.push(addr);
                Visit::Take(
                    ConsolidationInfo {
                        pages: self.pages,
                        page_size: self.page_size,
                        last_page: info,
                        page_addrs,
                        range_limit,
                    },
                )
            },
        }
    }
}

/// How far a consolidation has come.
#[derive(Debug)]
pub enum ConsolidateStage {
    /// The page at `addr` is being read.
    Collect { info: ConsolidationInfo, addr: u64, start_at: Duration },
    /// The transaction is being begun.
    Begin { items: Items, last_page: PageInfo, page_addrs: Vec<u64>, start_at: Duration },
    /// The new page is being built, then put in place of the old ones.
    Build { last_page: PageInfo, page_addrs: Vec<u64>, start_at: Duration },
    Replace { new: PageHandle, start_at: Duration },
}

/// A consolidation of one page chain.
#[derive(Debug)]
pub struct ConsolidateOp {
    pub at: PageHandle,
    pub safe_lsn: u64,
    pub stage: ConsolidateStage,
}

pub type ConsolidateTurn = Turn<ConsolidateOp, Result<PageHandle, Error>>;

/// The header of the page that takes the place of the consolidated ones: it stands where
/// the last of them stood.
pub open spec fn consolidated_header(at: PageHandle, last_page: PageInfo) -> PageHeader {
    PageHeader {
        epoch: at.page.epoch,
        chain_len: last_page.chain_len,
        chain_next: last_page.chain_next,
    }
}

/// The reports at the end of the collection.
pub open spec fn collect_notes(
    info: ConsolidationInfo,
    start_at: Duration,
    now: Duration,
) -> Seq<Note> {
    seq![
        Note::ConsolidatePageSize(info.page_size),
        Note::ConsolidateLength(info.page_addrs@.len() as usize),
        Note::Time(Timing::CollectInfo, start_at, now),
    ]
}

/// The pages to consolidate are known, and the transaction is begun.
pub open spec fn collection_ends(
    at: PageHandle,
    safe_lsn: u64,
    info: ConsolidationInfo,
    start_at: Duration,
    now: Duration,
    before: Seq<Note>,
    turn: ConsolidateTurn,
) -> bool {
    &&& turn.notes@ =~= before + collect_notes(info, start_at, now)
    &&& turn.next matches Next::Run(op, action)
    &&& action is Begin
    &&& op.at == at
    &&& op.safe_lsn == safe_lsn
    &&& op.stage matches ConsolidateStage::Begin { items, last_page, page_addrs, start_at: from }
    &&& is_consolidated(items, info.pages, limit_view(info.range_limit), safe_lsn)
    &&& last_page == info.last_page
    &&& page_addrs == info.page_addrs
    &&& from == now
}

/// How a consolidation of the page starts.
pub open spec fn consolidate_starts(
    at: PageHandle,
    safe_lsn: u64,
    now: Duration,
    turn: ConsolidateTurn,
) -> bool {
    if at.addr == 0 {
        exists|info: ConsolidationInfo| #[trigger]
            info.is_new(at.page) && collection_ends(
                at,
                safe_lsn,
                info,
                now,
                now,
                Seq::empty(),
                turn,
            )
    } else {
        &&& turn.next matches Next::Run(op, _)
        &&& op.stage matches ConsolidateStage::Collect { info, addr, start_at }
        &&& info.is_new(at.page)
        &&& addr == at.addr
        &&& start_at == now
        &&& turn.asks(
            ConsolidateOp { at, safe_lsn, stage: op.stage },
            Action::ReadPage(at.addr, CacheOption::RefillColdWhenNotFull),
        )
    }
}

impl ConsolidateOp {
    pub open spec fn to(self, stage: ConsolidateStage) -> ConsolidateOp {
        ConsolidateOp { stage, ..self }
    }

    /// How the collection goes on after a page was read.
    pub open spec fn collects(
        self,
        options: Options,
        info: ConsolidationInfo,
        addr: u64,
        start_at: Duration,
        now: Duration,
        page: Page,
        turn: ConsolidateTurn,
    ) -> bool {
        if info.enough_before(options, page.info) {
            collection_ends(self.at, self.safe_lsn, info, start_at, now, Seq::empty(), turn)
        } else {
            match info.objection(page) {
                Some(halt) => turn.halts(halt),
                None => exists|more: ConsolidationInfo| #[trigger]
                    info.with_page(addr, page, more) && {
                        let notes = if page.info.kind is Data {
                            seq![Note::ReturnCold]
                        } else {
                            Seq::empty()
                        };
                        let next = page.info.chain_next;
                        if next == 0 {
                            collection_ends(
                                self.at,
                                self.safe_lsn,
                                more,
                                start_at,
                                now,
                                notes,
                                turn,
                            )
                        } else {
                            &&& turn.notes@ =~= notes
                            &&& turn.next == Next::<ConsolidateOp, Result<PageHandle, Error>>::Run(
                                self.to(
                                    ConsolidateStage::Collect { info: more, addr: next, start_at },
                                ),
                                Action::ReadPage(next, CacheOption::RefillColdWhenNotFull),
                            )
                        }
                    },
            }
        }
    }

    /// How the consolidation goes on after an event.
    pub open spec fn steps_to(
        self,
        options: Options,
        now: Duration,
        event: Event,
        turn: ConsolidateTurn,
    ) -> bool {
        let tier = self.at.page.tier;
        match (self.stage, event) {
            (
                ConsolidateStage::Collect { info, addr, start_at },
                Event::Page(page),
            ) => self.collects(options, info, addr, start_at, now, page, turn),
            (
                ConsolidateStage::Begin { items, last_page, page_addrs, start_at },
                Event::Begun,
            ) => turn.asks(
                self.to(ConsolidateStage::Build { last_page, page_addrs, start_at }),
                Action::BuildPage(Draft { tier, kind: PageKind::Data, items }),
            ),
            (
                ConsolidateStage::Build { last_page, page_addrs, start_at },
                Event::Built { addr, size },
            ) => {
                let header = consolidated_header(self.at, last_page);
                let new = PageHandle {
                    id: self.at.id,
                    addr,
                    page: built_info(tier, PageKind::Data, header, size),
                };
                turn.asks(
                    self.to(ConsolidateStage::Replace { new, start_at }),
                    Action::ReplacePage {
                        id: self.at.id,
                        old_addr: self.at.addr,
                        new_addr: addr,
                        header,
                        dealloc_addrs: page_addrs,
                    },
                )
            },
            (ConsolidateStage::Replace { new, start_at }, Event::Replaced) => turn.ends(
                seq![
                    Note::Success(Counter::ConsolidatePage),
                    Note::Time(Timing::ConsolidatePage, start_at, now),
                ],
                Ok(new),
            ),
            (ConsolidateStage::Replace { .. }, Event::ReplaceFailed) => turn.ends(
                seq![Note::Conflict(Counter::ConsolidatePage)],
                Err(Error::Again),
            ),
            (ConsolidateStage::Collect { .. }, Event::Failed(e)) => turn.ends(
                Seq::empty(),
                Err(e),
            ),
            (ConsolidateStage::Build { .. }, Event::Failed(e)) => turn.ends(Seq::empty(), Err(e)),
            _ => turn.halts(Halt::UnexpectedEvent),
        }
    }

    /// Ends the collection: merges the pages and begins the transaction.
    fn end_collection(
        at: PageHandle,
        safe_lsn: u64,
        info: ConsolidationInfo,
        start_at: Duration,
        now: Duration,
        notes: Vec<Note>,
    ) -> (turn: ConsolidateTurn)
        ensures
            collection_ends(at, safe_lsn, info, start_at, now, notes@, turn),
    {
        let mut notes = notes;
        notes.push(Note::ConsolidatePageSize(info.page_size));
        notes.push(Note::ConsolidateLength(info.page_addrs.len()));
        notes.push(Note::Time(Timing::CollectInfo, start_at, now));
        let items = consolidate_items(info.pages, &info.range_limit, safe_lsn);
        Turn {
            notes,
            next: Next::Run(
                ConsolidateOp {
                    at,
                    safe_lsn,
                    stage: ConsolidateStage::Begin {
                        items,
                        last_page: info.last_page,
                        page_addrs: info.page_addrs,
                        start_at: now,
                    },
                },
                Action::Begin,
            ),
        }
    }

    /// Starts to consolidate the pages of the chain.
    pub fn start(at: PageHandle, safe_lsn: u64, now: Duration) -> (turn: ConsolidateTurn)
        ensures
            consolidate_starts(at, safe_lsn, now, turn),
    {
        let info = ConsolidationInfo::new(at.page);
        if at.addr == 0 {
            let notes: Vec<Note> = Vec::new();
            assert(notes@ =~= Seq::<Note>::empty());
            return ConsolidateOp::end_collection(at, safe_lsn, info, now, now, notes);
        }
        Turn::ask(
            ConsolidateOp {
                at,
                safe_lsn,
                stage: ConsolidateStage::Collect { info, addr: at.addr, start_at: now },
            },
            Action::ReadPage(at.addr, CacheOption::RefillColdWhenNotFull),
        )
    }

    fn collect(
        at: PageHandle,
        safe_lsn: u64,
        txn: &TreeTxn<'_>,
        info: ConsolidationInfo,
        addr: u64,
        start_at: Duration,
        now: Duration,
        page: Page,
    ) -> (turn: ConsolidateTurn)
        ensures
            (ConsolidateOp {
                at,
                safe_lsn,
                stage: ConsolidateStage::Collect { info, addr, start_at },
            }).collects(txn.options(), info, addr, start_at, now, page, turn),
    {
        let is_data: bool = page.info.kind.is_data();
        let next: u64 = page.info.chain_next;
        match info.visit(txn, addr, page) {
            Visit::Stop(info) => {
                let notes: Vec<Note> = Vec::new();
                assert(notes@ =~= Seq::<Note>::empty());
                ConsolidateOp::end_collection(at, safe_lsn, info, start_at, now, notes)
            },
            Visit::Halt(halt) => Turn::halt(halt),
            Visit::Take(more) => {
                let mut notes: Vec<Note> = Vec::new();
                assert(notes@ =~= Seq::<Note>::empty());
                if is_data {
                    notes.push(Note::ReturnCold);
                    assert(notes@ =~= seq![Note::ReturnCold]);
                }
                if next == 0 {
                    let turn = ConsolidateOp::end_collection(
                        at,
                        safe_lsn,
                        more,
                        start_at,
                        now,
                        notes,
                    );
                    assert(info.with_page(addr, page, more));
                    return turn;
                }
                assert(info.with_page(addr, page, more));
                Turn {
                    notes,
                    next: Next::Run(
                        ConsolidateOp {
                            at,
                            safe_lsn,
                            stage: ConsolidateStage::Collect { info: more, addr: next, start_at },
                        },
                        Action::ReadPage(next, CacheOption::RefillColdWhenNotFull),
                    ),
                }
            },
        }
    }

    /// Goes on after an event.
    pub fn step(self, txn: &TreeTxn<'_>, now: Duration, event: Event) -> (turn: ConsolidateTurn)
        ensures
            self.steps_to(txn.options(), now, event, turn),
    {
        let at = self.at;
        let safe_lsn: u64 = self.safe_lsn;
        let tier = at.page.tier;
        match (self.stage, event) {
            (
                ConsolidateStage::Collect { info, addr, start_at },
                Event::Page(page),
            ) => ConsolidateOp::collect(at, safe_lsn, txn, info, addr, start_at, now, page),
            (
                ConsolidateStage::Begin { items, last_page, page_addrs, start_at },
                Event::Begun,
            ) => Turn::ask(
                ConsolidateOp {
                    at,
                    safe_lsn,
                    stage: ConsolidateStage::Build { last_page, page_addrs, start_at },
                },
                Action::BuildPage(Draft { tier, kind: PageKind::Data, items }),
            ),
            (
                ConsolidateStage::Build { last_page, page_addrs, start_at },
                Event::Built { addr, size },
            ) => {
                let header = PageHeader {
                    epoch: at.page.epoch,
                    chain_len: last_page.chain_len,
                    chain_next: last_page.chain_next,
                };
                let page = PageInfo::built(tier, PageKind::Data, &header, size);
                let new = PageHandle { id: at.id, addr, page };
                // Update the page and deallocate the consolidated delta pages.
                Turn::ask(
                    ConsolidateOp {
                        at,
                        safe_lsn,
                        stage: ConsolidateStage::Replace { new, start_at },
                    },
                    Action::ReplacePage {
                        id: at.id,
                        old_addr: at.addr,
                        new_addr: addr,
                        header,
                        dealloc_addrs: page_addrs,
                    },
                )
            },
            (ConsolidateStage::Replace { new, start_at }, Event::Replaced) => Turn::end(
                Ok(new),
            ).report(Note::Success(Counter::ConsolidatePage)).report(
                Note::Time(Timing::ConsolidatePage, start_at, now),
            ),
            (ConsolidateStage::Replace { .. }, Event::ReplaceFailed) => Turn::end(
                Err(Error::Again),
            ).report(Note::Conflict(Counter::ConsolidatePage)),
            (ConsolidateStage::Collect { .. }, Event::Failed(e)) => Turn::end(Err(e)),
            (ConsolidateStage::Build { .. }, Event::Failed(e)) => Turn::end(Err(e)),
            _ => Turn::halt(Halt::UnexpectedEvent),
        }
    }
}

} // verus!
