//! What is collected along a chain, and what one page says that takes the place of it.

use crate::consolidate::{is_consolidated, Collected, ConsolidationInfo};
use crate::iter::Gather;
use crate::laws::order::{law_consolidated_versions_are_sorted, lemma_limited_ordered, ordered};
use crate::laws::versions::{descending, first_visible, law_limited_keeps_what_is_before,
    law_merged_pages_show_the_newest, law_needed_versions_are_kept,
    law_newest_version_is_seen_first, lemma_first_version_is_visible, newest_version, value_of};
use crate::laws::delta::lemma_find_value_front;
use crate::lookup::{find_value, shown, split_delta, visible_value};
use crate::merge::{limit_view, limited, merged, under_limit};
use crate::page::{sorted, Index, Items, Key, Page, PageInfo, PageKind, PageTier, Value};
use vstd::prelude::*;

verus! {

/// The contents of the leaf data pages of a chain.
pub open spec fn data_values(chain: Seq<Page>) -> Seq<Vec<(Key, Value)>>
    decreases chain.len(),
{
    if chain.len() == 0 {
        Seq::empty()
    } else {
        let rest = data_values(chain.drop_last());
        match chain.last().items {
            Items::Values(v) => rest.push(v),
            Items::Indexes(_) => rest,
        }
    }
}

/// The contents of the inner data pages of a chain.
pub open spec fn data_indexes(chain: Seq<Page>) -> Seq<Vec<(Vec<u8>, Index)>>
    decreases chain.len(),
{
    if chain.len() == 0 {
        Seq::empty()
    } else {
        let rest = data_indexes(chain.drop_last());
        match (chain.last().info.kind, chain.last().items) {
            (PageKind::Data, Items::Indexes(v)) => rest.push(v),
            _ => rest,
        }
    }
}

/// The end of the range of keys that the splits have left to a chain: the key of the split
/// that was announced last.
pub open spec fn chain_limit(chain: Seq<Page>) -> Option<Seq<u8>>
    decreases chain.len(),
{
    if chain.len() == 0 {
        None
    } else {
        match chain_limit(chain.drop_last()) {
            Some(limit) => Some(limit),
            None => if chain.last().info.kind is Split {
                Some(split_delta(chain.last()).0)
            } else {
                None
            },
        }
    }
}

/// The size of the data pages of a chain.
pub open spec fn data_size(chain: Seq<Page>) -> nat
    decreases chain.len(),
{
    if chain.len() == 0 {
        0
    } else {
        data_size(chain.drop_last()) + if chain.last().info.kind is Data {
            chain.last().info.size as nat
        } else {
            0
        }
    }
}

/// What has been collected is what the data pages of the chain hold.
pub open spec fn holds(pages: Collected, chain: Seq<Page>) -> bool {
    match pages {
        Collected::Values(v) => v@ == data_values(chain),
        Collected::Indexes(v) => v@ == data_indexes(chain),
    }
}

/// What is known of the pages is true of the visited part of the chain.
pub open spec fn describes(
    info: ConsolidationInfo,
    first: PageInfo,
    addrs: Seq<u64>,
    chain: Seq<Page>,
) -> bool {
    &&& holds(info.pages, chain)
    &&& info.page_size == data_size(chain)
    &&& info.last_page == if chain.len() == 0 {
        first
    } else {
        chain.last().info
    }
    &&& info.page_addrs@ == addrs
    &&& limit_view(info.range_limit) == chain_limit(chain)
}

/// A collection starts with nothing, and every page that it takes is one more of the
/// chain.
pub proof fn law_collection_describes_the_chain(
    info: ConsolidationInfo,
    first: PageInfo,
    addrs: Seq<u64>,
    chain: Seq<Page>,
    addr: u64,
    page: Page,
    more: ConsolidationInfo,
)
    requires
        page.wf(),
    ensures
        info.is_new(first) ==> describes(info, first, Seq::empty(), Seq::empty()),
        describes(info, first, addrs, chain) && info.with_page(addr, page, more) ==> describes(
            more,
            first,
            addrs.push(addr),
            chain.push(page),
        ),
{
    if info.is_new(first) {
        lemma_new_holds(info.pages, first.tier);
    }
    if describes(info, first, addrs, chain) && info.with_page(addr, page, more) {
        assert(chain.push(page).drop_last() =~= chain);
        assert(chain.push(page).last() == page);
        lemma_extended_holds(info.pages, chain, page, more.pages);
    }
}

proof fn lemma_new_holds(pages: Collected, tier: PageTier)
    requires
        pages.empty_for(tier),
    ensures
        holds(pages, Seq::empty()),
{
    match pages {
        Collected::Values(v) => {
            assert(v@ =~= data_values(Seq::empty()));
        },
        Collected::Indexes(v) => {
            assert(v@ =~= data_indexes(Seq::empty()));
        },
    }
}

proof fn lemma_extended_holds(
    pages: Collected,
    chain: Seq<Page>,
    page: Page,
    more: Collected,
)
    requires
        page.wf(),
        holds(pages, chain),
        match page.info.kind {
            PageKind::Data => pages.extended(page.items, more),
            PageKind::Split => more == pages,
        },
    ensures
        holds(more, chain.push(page)),
{
    assert(chain.push(page).drop_last() =~= chain);
    assert(chain.push(page).last() == page);
}

/// What is gathered of a chain for reading is what the data pages of the chain hold, up to
/// the key of the last split.
pub proof fn law_gathering_describes_the_chain(
    gather: Gather,
    tier: PageTier,
    chain: Seq<Page>,
    page: Page,
    more: Gather,
)
    requires
        page.wf(),
    ensures
        gather.is_new(tier) ==> holds(gather.pages, Seq::empty()) && limit_view(gather.range_limit)
            == chain_limit(Seq::empty()),
        holds(gather.pages, chain) && limit_view(gather.range_limit) == chain_limit(chain)
            && gather.with_page(page, more) ==> holds(more.pages, chain.push(page)) && limit_view(
            more.range_limit,
        ) == chain_limit(chain.push(page)),
{
    if gather.is_new(tier) {
        lemma_new_holds(gather.pages, tier);
    }
    if holds(gather.pages, chain) && limit_view(gather.range_limit) == chain_limit(chain)
        && gather.with_page(page, more) {
        assert(chain.push(page).drop_last() =~= chain);
        assert(chain.push(page).last() == page);
        lemma_extended_holds(gather.pages, chain, page, more.pages);
    }
}

pub proof fn lemma_data_values_first(chain: Seq<Page>)
    requires
        chain.len() > 0,
    ensures
        data_values(chain) == match chain[0].items {
            Items::Values(v) => seq![v] + data_values(chain.drop_first()),
            Items::Indexes(_) => data_values(chain.drop_first()),
        },
    decreases chain.len(),
{
    if chain.len() == 1 {
        assert(chain.drop_last() =~= Seq::<Page>::empty());
        assert(chain.drop_first() =~= Seq::<Page>::empty());
        match chain[0].items {
            Items::Values(v) => {
                assert(Seq::<Vec<(Key, Value)>>::empty().push(v) =~= seq![v]
                    + Seq::<Vec<(Key, Value)>>::empty());
            },
            Items::Indexes(_) => {},
        }
    } else {
        lemma_data_values_first(chain.drop_last());
        assert(chain.drop_last()[0] == chain[0]);
        assert(chain.drop_last().drop_first() =~= chain.drop_first().drop_last());
        assert(chain.drop_first().last() == chain.last());
        match (chain[0].items, chain.last().items) {
            (Items::Values(v), Items::Values(w)) => {
                let middle = data_values(chain.drop_first().drop_last());
                assert((seq![v] + middle).push(w) =~= seq![v] + middle.push(w));
            },
            _ => {},
        }
    }
}

/// A chain says of a key what the first of its data pages says that says anything, and
/// then what the chain behind it says.
pub proof fn lemma_find_value_by_pages(
    prefix: Seq<Page>,
    rest: Seq<Page>,
    raw: Seq<u8>,
    lsn: u64,
)
    ensures
        find_value(prefix + rest, raw, lsn) == match first_visible(
            data_values(prefix),
            None,
            raw,
            lsn,
        ) {
            Some(value) => value.content(),
            None => find_value(rest, raw, lsn),
        },
    decreases prefix.len(),
{
    if prefix.len() == 0 {
        assert(prefix + rest =~= rest);
    } else {
        let behind = prefix.drop_first();
        lemma_find_value_by_pages(behind, rest, raw, lsn);
        lemma_data_values_first(prefix);
        assert((prefix + rest).drop_first() =~= behind + rest);
        assert((prefix + rest)[0] == prefix[0]);
        match prefix[0].items {
            Items::Values(v) => {
                let pages = seq![v] + data_values(behind);
                assert(pages.drop_first() =~= data_values(behind));
            },
            Items::Indexes(_) => {},
        }
    }
}

/// A consolidated leaf page holds, for readers at the safe sequence number or later, the newest
/// version of each key that the splits have left to the chain, whatever the order in which the
/// versions came; of versions with the same sequence number the one in the newest page.
pub proof fn law_consolidation_keeps_the_newest(
    chain: Seq<Page>,
    new: Page,
    pages: Collected,
    safe_lsn: u64,
    raw: Seq<u8>,
    lsn: u64,
)
    requires
        pages is Values,
        holds(pages, chain),
        forall|i: int|
            0 <= i < data_values(chain).len() ==> sorted(#[trigger] data_values(chain)[i]@),
        is_consolidated(new.items, pages, chain_limit(chain), safe_lsn),
        safe_lsn <= lsn,
    ensures
        new.items matches Items::Values(v) && sorted(v@) && visible_value(v@, raw, lsn)
            == if under_limit(raw, chain_limit(chain)) {
            value_of(newest_version(data_values(chain), raw, lsn))
        } else {
            None
        },
{
    let limit = chain_limit(chain);
    let values = data_values(chain);
    law_consolidated_versions_are_sorted(values, limit, safe_lsn);
    law_merged_pages_show_the_newest(values, raw, lsn);
    law_limited_keeps_what_is_before(merged(values), limit, raw, lsn);
    law_needed_versions_are_kept(limited(merged(values), limit), safe_lsn, raw, lsn);
    lemma_first_version_is_visible(new.items->Values_0@, raw, lsn);
}

/// A leaf page that takes the place of the newest pages of a chain: readers at the safe
/// sequence number or later get what they got before, of every key that the splits have left
/// to the chain.
pub proof fn law_consolidation_keeps_reads(
    prefix: Seq<Page>,
    rest: Seq<Page>,
    new: Page,
    pages: Collected,
    safe_lsn: u64,
    raw: Seq<u8>,
    lsn: u64,
)
    requires
        pages is Values,
        holds(pages, prefix),
        descending(data_values(prefix)),
        is_consolidated(new.items, pages, chain_limit(prefix), safe_lsn),
        under_limit(raw, chain_limit(prefix)),
        safe_lsn <= lsn,
    ensures
        new.items.sorted(),
        find_value(seq![new] + rest, raw, lsn) == find_value(prefix + rest, raw, lsn),
{
    law_consolidation_keeps_the_newest(prefix, new, pages, safe_lsn, raw, lsn);
    law_newest_version_is_seen_first(data_values(prefix), raw, lsn);
    lemma_find_value_by_pages(prefix, rest, raw, lsn);
    lemma_find_value_front(new, rest, raw, lsn);
}

/// The items that an iterator hands out for a leaf page show a reader of any key that the
/// splits have left to the page what a search of its chain finds.
pub proof fn law_iterated_page_shows_what_is_found(
    chain: Seq<Page>,
    gather: Gather,
    items: Seq<(Key, Value)>,
    raw: Seq<u8>,
    lsn: u64,
)
    requires
        holds(gather.pages, chain),
        limit_view(gather.range_limit) == chain_limit(chain),
        descending(data_values(chain)),
        gather.is_leaf_items(items),
        under_limit(raw, chain_limit(chain)),
    ensures
        ordered(items),
        find_value(chain, raw, lsn) == shown(items, raw, lsn),
{
    let values = data_values(chain);
    law_merged_pages_show_the_newest(values, raw, lsn);
    law_newest_version_is_seen_first(values, raw, lsn);
    law_limited_keeps_what_is_before(merged(values), chain_limit(chain), raw, lsn);
    lemma_limited_ordered(merged(values), chain_limit(chain));
    lemma_find_value_by_pages(chain, Seq::empty(), raw, lsn);
    assert(chain + Seq::<Page>::empty() =~= chain);
}

} // verus!
