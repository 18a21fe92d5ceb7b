//! How a consolidation takes the pages of a chain, and what it puts in their place.

use crate::consolidate::{consolidate_starts, Collected, ConsolidateOp, ConsolidateStage,
    ConsolidateTurn, ConsolidationInfo};
use crate::laws::keeping::{is_useless, law_useless_versions_are_dropped};
use crate::laws::order::{lemma_limited_ordered, lemma_merged_onto_ordered};
use crate::laws::upkeep::is_too_long;
use crate::merge::{limited, live_children, merged, needed_versions};
use crate::note::{Counter, Note, Timing};
use crate::page::{position_lt, sorted, Items, Key, Page, PageHandle, PageHeader, PageInfo, PageKind,
    PageTier, SortedPageKey, Value};
use crate::tree::Options;
use crate::turn::{Action, CacheOption, Error, Event, Halt, Next};
use std::time::Duration;
use vstd::prelude::*;

verus! {

/// How many data pages have been taken.
pub open spec fn taken(info: ConsolidationInfo) -> nat {
    match info.pages {
        Collected::Values(v) => v@.len(),
        Collected::Indexes(v) => v@.len(),
    }
}

/// The page is left alone: it is a leaf page with data that is more than twice as large as all
/// of at least two pages in front of it, none of which announces a split, and its own chain is
/// short enough.
pub open spec fn is_left_alone(options: Options, info: ConsolidationInfo, page: PageInfo) -> bool {
    &&& page.kind == PageKind::Data
    &&& page.tier == PageTier::Leaf
    &&& taken(info) >= 2
    &&& info.page_size < page.size as int / 2
    &&& info.range_limit is None
    &&& !is_too_long(options, page.tier, page.chain_len as int)
}

/// The contents of the page stand behind those that were taken before.
pub open spec fn adds(before: Collected, items: Items, after: Collected) -> bool {
    match (before, items, after) {
        (Collected::Values(v), Items::Values(i), Collected::Values(w)) => w@ == v@.push(i),
        (Collected::Indexes(v), Items::Indexes(i), Collected::Indexes(w)) => w@ == v@.push(i),
        _ => false,
    }
}

/// What the contents of the taken pages become: merged, without what is at the limit or
/// beyond, without what no reader at the safe sequence number or later sees.
pub open spec fn turn_into(
    pages: Collected,
    limit: Option<Seq<u8>>,
    safe_lsn: u64,
    items: Items,
) -> bool {
    match (pages, items) {
        (Collected::Values(v), Items::Values(i)) => i@ == needed_versions(
            limited(merged(v@), limit),
            safe_lsn,
        ),
        (Collected::Indexes(v), Items::Indexes(i)) => i@ == live_children(
            limited(merged(v@), limit),
        ),
        _ => false,
    }
}

/// The consolidation has taken its pages and begins its transaction.
pub open spec fn has_taken(
    op: ConsolidateOp,
    pages: Collected,
    limit: Option<Seq<u8>>,
    last: PageInfo,
    addrs: Seq<u64>,
    now: Duration,
    turn: ConsolidateTurn,
) -> bool {
    &&& turn.next matches Next::Run(next, action)
    &&& action is Begin
    &&& next.at == op.at
    &&& next.safe_lsn == op.safe_lsn
    &&& next.stage matches ConsolidateStage::Begin { items, last_page, page_addrs, start_at }
    &&& last_page == last
    &&& page_addrs@ == addrs
    &&& start_at == now
    &&& turn_into(pages, limit, op.safe_lsn, items)
}

/// A consolidation starts with reading the first page of the chain; nothing has been taken.
pub proof fn law_consolidation_reads_the_first_page(
    at: PageHandle,
    safe_lsn: u64,
    now: Duration,
    turn: ConsolidateTurn,
)
    requires
        at.addr != 0,
        consolidate_starts(at, safe_lsn, now, turn),
    ensures
        turn.notes@.len() == 0,
        turn.next matches Next::Run(op, action) && {
            &&& action == Action::ReadPage(at.addr, CacheOption::RefillColdWhenNotFull)
            &&& op.at == at
            &&& op.safe_lsn == safe_lsn
            &&& op.stage matches ConsolidateStage::Collect { info, addr, start_at }
            &&& addr == at.addr
            &&& start_at == now
            &&& taken(info) == 0
            &&& info.pages is Values <==> at.page.tier == PageTier::Leaf
            &&& info.page_size == 0
            &&& info.page_addrs@.len() == 0
            &&& info.range_limit is None
        },
{
}

/// Where there is no page to read, a consolidation has nothing to take.
pub proof fn law_consolidation_of_no_page_takes_nothing(
    at: PageHandle,
    safe_lsn: u64,
    now: Duration,
    turn: ConsolidateTurn,
)
    requires
        at.addr == 0,
        consolidate_starts(at, safe_lsn, now, turn),
    ensures
        turn.next matches Next::Run(op, action) && {
            &&& action is Begin
            &&& op.at == at
            &&& op.safe_lsn == safe_lsn
            &&& op.stage matches ConsolidateStage::Begin { items, last_page, page_addrs, start_at }
            &&& items.count() == 0
            &&& items is Values <==> at.page.tier == PageTier::Leaf
            &&& last_page == at.page
            &&& page_addrs@.len() == 0
            &&& start_at == now
        },
        turn.notes@ == seq![
            Note::ConsolidatePageSize(0),
            Note::ConsolidateLength(0),
            Note::Time(Timing::CollectInfo, now, now),
        ],
{
    let op = turn.next->Run_0;
    match op.stage {
        ConsolidateStage::Begin { items, .. } => {
            let info = choose|info: ConsolidationInfo| #[trigger]
                info.is_new(at.page) && turn_into(info.pages, None, safe_lsn, items);
            match info.pages {
                Collected::Values(v) => {
                    assert(merged(v@).len() == 0);
                },
                Collected::Indexes(v) => {
                    assert(merged(v@).len() == 0);
                },
            }
        },
        _ => {},
    }
}

/// A consolidation that has read a page which is left alone has taken its pages, and the last
/// of them is the one in front.
pub proof fn law_consolidation_leaves_large_pages_alone(
    op: ConsolidateOp,
    options: Options,
    now: Duration,
    page: Page,
    turn: ConsolidateTurn,
)
    requires
        op.stage is Collect,
        is_left_alone(options, op.stage->info, page.info),
        op.steps_to(options, now, Event::Page(page), turn),
    ensures
        ({
            let info = op.stage->info;
            &&& has_taken(
                op,
                info.pages,
                None,
                info.last_page,
                info.page_addrs@,
                now,
                turn,
            )
            &&& turn.notes@ == seq![
                Note::ConsolidatePageSize(info.page_size),
                Note::ConsolidateLength(info.page_addrs@.len() as usize),
                Note::Time(Timing::CollectInfo, op.stage->Collect_start_at, now),
            ]
        }),
{
}

/// A consolidation takes every other data page of its tier, with its size and its address, and
/// reads the page behind it; behind the last page it has taken its pages.
pub proof fn law_consolidation_takes_data_pages(
    op: ConsolidateOp,
    options: Options,
    now: Duration,
    page: Page,
    turn: ConsolidateTurn,
)
    requires
        op.stage is Collect,
        page.info.kind is Data,
        op.stage->info.pages is Values <==> page.items is Values,
        op.stage->info.page_size + page.info.size <= usize::MAX,
        !is_left_alone(options, op.stage->info, page.info),
        op.steps_to(options, now, Event::Page(page), turn),
    ensures
        ({
            let info = op.stage->info;
            let addrs = info.page_addrs@.push(op.stage->Collect_addr);
            let size = (info.page_size + page.info.size) as usize;
            if page.info.chain_next == 0 {
                &&& exists|pages: Collected| #[trigger]
                    adds(info.pages, page.items, pages) && has_taken(
                        op,
                        pages,
                        match info.range_limit {
                            Some(end) => Some(end@),
                            None => None,
                        },
                        page.info,
                        addrs,
                        now,
                        turn,
                    )
                &&& turn.notes@ == seq![
                    Note::ReturnCold,
                    Note::ConsolidatePageSize(size),
                    Note::ConsolidateLength(addrs.len() as usize),
                    Note::Time(Timing::CollectInfo, op.stage->Collect_start_at, now),
                ]
            } else {
                &&& turn.notes@ == seq![Note::ReturnCold]
                &&& turn.next matches Next::Run(next, action)
                &&& action == Action::ReadPage(
                    page.info.chain_next,
                    CacheOption::RefillColdWhenNotFull,
                )
                &&& next.at == op.at
                &&& next.safe_lsn == op.safe_lsn
                &&& next.stage matches ConsolidateStage::Collect { info: more, addr, start_at }
                &&& addr == page.info.chain_next
                &&& start_at == op.stage->Collect_start_at
                &&& adds(info.pages, page.items, more.pages)
                &&& more.page_size == size
                &&& more.last_page == page.info
                &&& more.page_addrs@ == addrs
                &&& more.range_limit == info.range_limit
            }
        }),
{
    let info = op.stage->info;
    let more = choose|more: ConsolidationInfo| #[trigger]
        info.with_page(op.stage->Collect_addr, page, more) && (page.info.chain_next == 0 ==> {
            &&& turn.next matches Next::Run(next, _)
            &&& next.stage matches ConsolidateStage::Begin { items, page_addrs, .. }
            &&& page_addrs == more.page_addrs
            &&& turn_into(
                more.pages,
                match more.range_limit {
                    Some(end) => Some(end@),
                    None => None,
                },
                op.safe_lsn,
                items,
            )
        });
    assert(adds(info.pages, page.items, more.pages));
}

/// A consolidation takes the address of a page that announces a split, and goes by the split
/// key that it meets first.
pub proof fn law_consolidation_goes_by_the_first_split(
    op: ConsolidateOp,
    options: Options,
    now: Duration,
    page: Page,
    turn: ConsolidateTurn,
)
    requires
        op.stage is Collect,
        page.info.kind is Split,
        page.items matches Items::Indexes(v) && v@.len() > 0,
        op.steps_to(options, now, Event::Page(page), turn),
    ensures
        ({
            let info = op.stage->info;
            let addrs = info.page_addrs@.push(op.stage->Collect_addr);
            let limit = match info.range_limit {
                Some(end) => end@,
                None => page.items->Indexes_0@[0].0@,
            };
            if page.info.chain_next == 0 {
                &&& has_taken(op, info.pages, Some(limit), page.info, addrs, now, turn)
                &&& turn.notes@ == seq![
                    Note::ConsolidatePageSize(info.page_size),
                    Note::ConsolidateLength(addrs.len() as usize),
                    Note::Time(Timing::CollectInfo, op.stage->Collect_start_at, now),
                ]
            } else {
                &&& turn.notes@.len() == 0
                &&& turn.next matches Next::Run(next, action)
                &&& action == Action::ReadPage(
                    page.info.chain_next,
                    CacheOption::RefillColdWhenNotFull,
                )
                &&& next.at == op.at
                &&& next.safe_lsn == op.safe_lsn
                &&& next.stage matches ConsolidateStage::Collect { info: more, addr, start_at }
                &&& addr == page.info.chain_next
                &&& start_at == op.stage->Collect_start_at
                &&& more.pages == info.pages
                &&& more.page_size == info.page_size
                &&& more.last_page == page.info
                &&& more.page_addrs@ == addrs
                &&& more.range_limit matches Some(end)
                &&& end@ == limit
            }
        }),
{
}

/// A consolidation that has taken its pages builds one data page of their tier, and has it
/// put in place of the pages that it has taken: with the epoch of the first, and where the
/// last stood. The addresses of all of them become free.
pub proof fn law_consolidation_goes_through(
    op: ConsolidateOp,
    options: Options,
    times: Seq<Duration>,
    begun: ConsolidateTurn,
    addr: u64,
    size: usize,
    built: ConsolidateTurn,
    replaced: ConsolidateTurn,
)
    requires
        op.stage is Begin,
        op.steps_to(options, times[0], Event::Begun, begun),
        begun.next matches Next::Run(next, _) ==> next.steps_to(
            options,
            times[1],
            Event::Built { addr, size },
            built,
        ),
        built.next matches Next::Run(next, _) ==> next.steps_to(
            options,
            times[2],
            Event::Replaced,
            replaced,
        ),
    ensures
        begun.next matches Next::Run(_, Action::BuildPage(draft)) && {
            &&& draft.tier == op.at.page.tier
            &&& draft.kind == PageKind::Data
            &&& draft.items == op.stage->Begin_items
        },
        built.next matches Next::Run(_, action) && action == (Action::ReplacePage {
            id: op.at.id,
            old_addr: op.at.addr,
            new_addr: addr,
            header: PageHeader {
                epoch: op.at.page.epoch,
                chain_len: op.stage->Begin_last_page.chain_len,
                chain_next: op.stage->Begin_last_page.chain_next,
            },
            dealloc_addrs: op.stage->Begin_page_addrs,
        }),
        replaced.next matches Next::Done(Ok(new)) && new == (PageHandle {
            id: op.at.id,
            addr,
            page: PageInfo {
                tier: op.at.page.tier,
                kind: PageKind::Data,
                epoch: op.at.page.epoch,
                chain_len: op.stage->Begin_last_page.chain_len,
                chain_next: op.stage->Begin_last_page.chain_next,
                size,
            },
        }),
        begun.notes@.len() == 0,
        built.notes@.len() == 0,
        replaced.notes@ == seq![
            Note::Success(Counter::ConsolidatePage),
            Note::Time(Timing::ConsolidatePage, op.stage->Begin_start_at, times[2]),
        ],
{
}

/// A consolidation whose pages were exchanged meanwhile has met a conflict; a failure of the
/// store ends it; and it refuses pages of another tier, pages that are too large together, and
/// announcements of splits that name none.
pub proof fn law_consolidation_gives_way(
    op: ConsolidateOp,
    options: Options,
    now: Duration,
    event: Event,
    turn: ConsolidateTurn,
)
    requires
        op.steps_to(options, now, event, turn),
    ensures
        op.stage is Replace && event is ReplaceFailed ==> turn.next == Next::<
            ConsolidateOp,
            Result<PageHandle, Error>,
        >::Done(Err(Error::Again)) && turn.notes@ == seq![
            Note::Conflict(Counter::ConsolidatePage),
        ],
        (op.stage is Collect || op.stage is Build) ==> (event matches Event::Failed(e) ==> turn.next
            == Next::<ConsolidateOp, Result<PageHandle, Error>>::Done(Err(e)) && turn.notes@.len()
            == 0),
        turn.next is Done ==> (op.stage is Replace && (event is Replaced
            || event is ReplaceFailed)) || ((op.stage is Collect || op.stage is Build)
            && event is Failed),
        op.stage is Collect ==> (event matches Event::Page(page) ==> (page.info.kind is Data
            && !is_left_alone(options, op.stage->info, page.info) ==> {
            &&& !(op.stage->info.pages is Values <==> page.items is Values) ==> turn.next == Next::<
                ConsolidateOp,
                Result<PageHandle, Error>,
            >::Halt(Halt::TierMismatch)
            &&& (op.stage->info.pages is Values <==> page.items is Values)
                && op.stage->info.page_size + page.info.size > usize::MAX ==> turn.next == Next::<
                ConsolidateOp,
                Result<PageHandle, Error>,
            >::Halt(Halt::Overflow)
        })),
        op.stage is Collect ==> (event matches Event::Page(page) ==> (page.info.kind is Split
            && op.stage->info.range_limit is None && page.items.count() == 0 ==> turn.next
            == Next::<ConsolidateOp, Result<PageHandle, Error>>::Halt(Halt::SplitDeltaMissing))),
{
}

/// A consolidation leaves no version that no reader at the safe sequence number or later sees:
/// of two versions of one key the first is newer than the safe sequence number, and newer than
/// the second.
pub proof fn law_consolidation_leaves_no_useless_version(
    pages: Vec<Vec<(Key, Value)>>,
    limit: Option<Seq<u8>>,
    safe_lsn: u64,
    items: Vec<(Key, Value)>,
    i: int,
    j: int,
)
    requires
        turn_into(Collected::Values(pages), limit, safe_lsn, Items::Values(items)),
        forall|k: int| 0 <= k < pages@.len() ==> sorted(#[trigger] pages@[k]@),
        0 <= i < j < items@.len(),
        items@[i].0.raw@ == items@[j].0.raw@,
    ensures
        items@[i].0.lsn > safe_lsn,
        items@[i].0.lsn > items@[j].0.lsn,
{
    let all = limited(merged(pages@), limit);
    lemma_merged_onto_ordered(pages@, Seq::empty());
    lemma_limited_ordered(merged(pages@), limit);
    let places = law_useless_versions_are_dropped(all, safe_lsn);
    assert(places[i] < places[j]);
    assert(places.contains(places[j]));
    assert(!is_useless(all, safe_lsn, places[j]));
    assert(all[places[i]] == items@[i]);
    assert(all[places[j]] == items@[j]);
    assert(!position_lt(all[places[j]].0.position(), all[places[i]].0.position()));
}

} // verus!
