//! Exchanging the chain of one page of the tree for another that answers alike: writes and
//! consolidations.

use crate::consolidate::{is_consolidated, Collected};
use crate::laws::children::{chain_live, chain_wf};
use crate::laws::collection::{chain_limit, data_values, holds, law_consolidation_keeps_reads,
    lemma_data_values_first};
use crate::laws::delta::{draft_of, law_write_is_read};
use crate::laws::forest::{children_within, found, lemma_one_split_front, lemma_visited,
    one_split, one_tier, page_ok, path_ok, read,
    refer, split_is_pending, tree_ok, visit, Forest, Place};
use crate::laws::inner::{child_at, law_consolidation_keeps_children};
use crate::laws::order::law_consolidated_versions_are_sorted;
use crate::laws::versions::{descending, dominates, is_item, lemma_limited_subset,
    lemma_merged_pair_from, lemma_needed_subset};
use crate::lookup::split_delta;
use crate::merge::{limited, merged, merged_onto, merged_pair, needed_versions, under_limit};
use crate::page::{sorted, Items, Key, Page, SortedPageKey, Value};
use crate::write::is_write_draft;
use vstd::prelude::*;

verus! {

/// The forest with another chain in the place of a page's chain.
pub open spec fn exchanged(f: Forest, id: u64, chain: Seq<Page>) -> Forest {
    Forest { chains: f.chains.insert(id, chain), places: f.places }
}

/// The chain can take the place of the page's chain: it is fit for the place, keeps the
/// epoch, and sends every key to the child that it was sent to.
pub open spec fn exchangeable(f: Forest, id: u64, chain: Seq<Page>) -> bool {
    let place = f.places[id];
    &&& f.has(id)
    &&& !f.pending(id)
    &&& page_ok(chain, place)
    &&& chain[0].info.epoch == f.head(id).info.epoch
    &&& place.level > 0 ==> forall|raw: Seq<u8>| #[trigger]
        place.range.contains(raw) ==> child_at(chain, place.range.end, raw) == child_at(
            f.chains[id],
            place.range.end,
            raw,
        )
}

/// Exchanging a chain for one that answers alike leaves every search where it came to.
pub proof fn law_exchange_keeps_searches(
    f: Forest,
    height: nat,
    id: u64,
    chain: Seq<Page>,
    raw: Seq<u8>,
    level: nat,
)
    requires
        tree_ok(f, height),
        exchangeable(f, id, chain),
        level <= height,
    ensures
        refer(exchanged(f, id, chain), height, raw, level) == refer(f, height, raw, level),
        visit(exchanged(f, id, chain), height, raw, level) == visit(f, height, raw, level),
        path_ok(exchanged(f, id, chain), height, raw, level),
    decreases height - level,
{
    let g = exchanged(f, id, chain);
    if level < height {
        law_exchange_keeps_searches(f, height, id, chain, raw, level + 1);
        lemma_visited(f, height, raw, level + 1);
    }
    assert(path_ok(f, height, raw, level));
    let (index, range) = refer(f, height, raw, level);
    assert(g.head(id).info.epoch == f.head(id).info.epoch);
    if index.id == id {
        assert(f.head(id).info.epoch == index.epoch);
    } else {
        assert(g.head(index.id) == f.head(index.id));
        if f.head(index.id).info.epoch != index.epoch {
            assert(split_is_pending(g, index, range));
        }
    }
}

/// Exchanging a chain for one that answers alike keeps the tree.
pub proof fn law_exchange_keeps_the_tree(f: Forest, height: nat, id: u64, chain: Seq<Page>)
    requires
        tree_ok(f, height),
        exchangeable(f, id, chain),
    ensures
        tree_ok(exchanged(f, id, chain), height),
{
    let g = exchanged(f, id, chain);
    assert forall|other: u64| #[trigger] g.has(other) implies page_ok(
        g.chains[other],
        g.places[other],
    ) by {
        assert(f.has(other));
    }
    assert forall|raw: Seq<u8>, level: nat| level <= height implies #[trigger] path_ok(
        g,
        height,
        raw,
        level,
    ) by {
        law_exchange_keeps_searches(f, height, id, chain, raw, level);
    }
}

/// The limit of a chain is that of its newer part, if that has one.
pub proof fn lemma_chain_limit_parts(a: Seq<Page>, b: Seq<Page>)
    ensures
        chain_limit(a + b) == match chain_limit(a) {
            Some(limit) => Some(limit),
            None => chain_limit(b),
        },
    decreases b.len(),
{
    if b.len() == 0 {
        assert(a + b =~= a);
    } else {
        assert((a + b).drop_last() =~= a + b.drop_last());
        assert((a + b).last() == b.last());
        lemma_chain_limit_parts(a, b.drop_last());
    }
}

/// One more page in front decides the limit if it announces a split.
pub proof fn lemma_chain_limit_front(page: Page, chain: Seq<Page>)
    ensures
        chain_limit(seq![page] + chain) == if page.info.kind is Split {
            Some(split_delta(page).0)
        } else {
            chain_limit(chain)
        },
{
    reveal_with_fuel(chain_limit, 2);
    assert(seq![page].drop_last() =~= Seq::<Page>::empty());
    lemma_chain_limit_parts(seq![page], chain);
}

/// The data pages of a chain are those of its two parts.
pub proof fn lemma_data_values_parts(a: Seq<Page>, b: Seq<Page>)
    ensures
        data_values(a + b) == data_values(a) + data_values(b),
    decreases b.len(),
{
    if b.len() == 0 {
        assert(a + b =~= a);
        assert(data_values(a) + Seq::<Vec<(Key, Value)>>::empty() =~= data_values(a));
    } else {
        assert((a + b).drop_last() =~= a + b.drop_last());
        assert((a + b).last() == b.last());
        lemma_data_values_parts(a, b.drop_last());
        match b.last().items {
            Items::Values(v) => {
                assert((data_values(a) + data_values(b.drop_last())).push(v) =~= data_values(a)
                    + data_values(b.drop_last()).push(v));
            },
            Items::Indexes(_) => {},
        }
    }
}

/// No version of the key in the chain has a greater sequence number than the write.
pub open spec fn is_newest(key: Key, chain: Seq<Page>) -> bool {
    forall|p: int, j: int|
        0 <= p < data_values(chain).len() && 0 <= j < data_values(chain)[p]@.len() && (
        #[trigger] data_values(chain)[p]@[j]).0.raw@ == key.raw@ ==> data_values(
            chain,
        )[p]@[j].0.lsn <= key.lsn
}

proof fn lemma_written_page_ok(
    chain: Seq<Page>,
    place: Place,
    delta: Page,
    key: Key,
    value: Value,
)
    requires
        page_ok(chain, place),
        place.level == 0,
        is_write_draft(draft_of(delta), key, value),
        is_newest(key, chain),
        place.range.contains(key.raw@),
    ensures
        page_ok(seq![delta] + chain, place),
{
    let all = seq![delta] + chain;
    let v = delta.items->Values_0;
    assert(delta.wf());
    assert(chain_wf(all)) by {
        assert forall|i: int| 0 <= i < all.len() implies (#[trigger] all[i]).wf() by {
            if i > 0 {
                assert(all[i] == chain[i - 1]);
            }
        }
    }
    assert(one_tier(all, place.level)) by {
        assert forall|i: int| 0 <= i < all.len() implies ((#[trigger] all[i]).info.tier is Leaf
            <==> place.level == 0) by {
            if i > 0 {
                assert(all[i] == chain[i - 1]);
            }
        }
    }
    lemma_one_split_front(delta, chain);
    lemma_chain_limit_front(delta, chain);
    lemma_data_values_first(all);
    assert(all.drop_first() =~= chain);
    let pages = data_values(chain);
    let more = seq![v] + pages;
    assert(data_values(all) == more);
    assert forall|i: int| 0 <= i < more.len() implies sorted(#[trigger] more[i]@) by {
        if i > 0 {
            assert(more[i] == pages[i - 1]);
        }
    }
    assert forall|i: int, j: int| 0 <= i < j < more.len() implies dominates(
        #[trigger] more[i]@,
        #[trigger] more[j]@,
    ) by {
        assert(more[j] == pages[j - 1]);
        if i > 0 {
            assert(more[i] == pages[i - 1]);
        } else {
            assert forall|a: int, b: int|
                0 <= a < v@.len() && 0 <= b < more[j]@.len() && #[trigger] v@[a].0.raw@
                    == #[trigger] more[j]@[b].0.raw@ implies v@[a].0.lsn >= more[j]@[b].0.lsn by {
                assert(pages[j - 1]@[b].0.raw@ == key.raw@);
            }
        }
    }
    assert forall|p: int, j: int|
        0 <= p < data_values(all).len() && 0 <= j < data_values(all)[p]@.len() && under_limit(
            (#[trigger] data_values(all)[p]@[j]).0.raw@,
            chain_limit(all),
        ) implies place.range.contains(data_values(all)[p]@[j].0.raw@) by {
        if p > 0 {
            assert(data_values(all)[p] == pages[p - 1]);
            assert(data_values(chain)[p - 1]@[j] == data_values(all)[p]@[j]);
        }
    }
}

/// With the page of a write in front, a leaf chain can take its own place.
pub proof fn lemma_write_is_exchangeable(
    f: Forest,
    height: nat,
    id: u64,
    delta: Page,
    key: Key,
    value: Value,
)
    requires
        tree_ok(f, height),
        found(f, height, key.raw@, 0, id),
        is_newest(key, f.chains[id]),
        is_write_draft(draft_of(delta), key, value),
        delta.info.epoch == f.head(id).info.epoch,
    ensures
        exchangeable(f, id, seq![delta] + f.chains[id]),
        visit(f, height, key.raw@, 0).0.id == id,
{
    lemma_visited(f, height, key.raw@, 0);
    assert(path_ok(f, height, key.raw@, 0));
    lemma_written_page_ok(f.chains[id], f.places[id], delta, key, value);
}

/// Once a write's page is in front of the leaf page that the search for its key came to, the
/// pages still form a tree; readers of the key at the write or later get what was written, and
/// every other read gets what it got before.
pub proof fn law_write_changes_its_key_only(
    f: Forest,
    height: nat,
    id: u64,
    delta: Page,
    key: Key,
    value: Value,
    raw: Seq<u8>,
    lsn: u64,
)
    requires
        tree_ok(f, height),
        found(f, height, key.raw@, 0, id),
        is_newest(key, f.chains[id]),
        is_write_draft(draft_of(delta), key, value),
        delta.info.epoch == f.head(id).info.epoch,
    ensures
        ({
            let g = exchanged(f, id, seq![delta] + f.chains[id]);
            &&& tree_ok(g, height)
            &&& read(g, height, raw, lsn) == if raw == key.raw@ && lsn >= key.lsn {
                value.content()
            } else {
                read(f, height, raw, lsn)
            }
        }),
{
    let chain = seq![delta] + f.chains[id];
    lemma_write_is_exchangeable(f, height, id, delta, key, value);
    law_exchange_keeps_the_tree(f, height, id, chain);
    law_exchange_keeps_searches(f, height, id, chain, raw, 0);
    law_exchange_keeps_searches(f, height, id, chain, key.raw@, 0);
    law_write_is_read(f.chains[id], delta, key, value, raw, lsn);
}

/// Every item of merged pages is one of theirs.
pub proof fn lemma_merged_onto_from<K: SortedPageKey, V>(
    pages: Seq<Vec<(K, V)>>,
    oldest: Seq<(K, V)>,
    k: int,
)
    requires
        0 <= k < merged_onto(pages, oldest).len(),
    ensures
        ({
            let x = merged_onto(pages, oldest)[k];
            ||| is_item(x, oldest)
            ||| exists|p: int| 0 <= p < pages.len() && is_item(x, #[trigger] pages[p]@)
        }),
    decreases pages.len(),
{
    let x = merged_onto(pages, oldest)[k];
    if pages.len() == 0 {
        assert(oldest[k] == x);
    } else {
        let rest = pages.drop_last();
        let last = pages.last()@;
        lemma_merged_onto_from(rest, merged_pair(last, oldest), k);
        if is_item(x, merged_pair(last, oldest)) {
            let m = choose|m: int|
                0 <= m < merged_pair(last, oldest).len() && #[trigger] merged_pair(last, oldest)[m]
                    == x;
            lemma_merged_pair_from(last, oldest, m);
            if exists|i: int| 0 <= i < last.len() && #[trigger] last[i] == x {
                assert(is_item(x, pages[pages.len() - 1]@));
            }
        } else {
            let p = choose|p: int| 0 <= p < rest.len() && is_item(x, #[trigger] rest[p]@);
            assert(is_item(x, pages[p]@));
        }
    }
}

/// Every version that a consolidated leaf page holds is one of the pages that it replaces,
/// and comes before the limit.
proof fn lemma_consolidated_from(
    pages: Seq<Vec<(Key, Value)>>,
    limit: Option<Seq<u8>>,
    safe_lsn: u64,
    k: int,
)
    requires
        0 <= k < needed_versions(limited(merged(pages), limit), safe_lsn).len(),
    ensures
        ({
            let x = needed_versions(limited(merged(pages), limit), safe_lsn)[k];
            &&& under_limit(x.0.raw@, limit)
            &&& exists|p: int| 0 <= p < pages.len() && is_item(x, #[trigger] pages[p]@)
        }),
{
    let few = limited(merged(pages), limit);
    let x = needed_versions(few, safe_lsn)[k];
    lemma_needed_subset(few, safe_lsn, k);
    let i = choose|i: int| 0 <= i < few.len() && #[trigger] few[i] == x;
    lemma_limited_subset(merged(pages), limit, i);
    lemma_limited_is_under(merged(pages), limit, i);
    let j = choose|j: int| 0 <= j < merged(pages).len() && #[trigger] merged(pages)[j] == x;
    lemma_merged_onto_from(pages, Seq::<(Key, Value)>::empty(), j);
}

pub proof fn lemma_limited_is_under(items: Seq<(Key, Value)>, limit: Option<Seq<u8>>, i: int)
    requires
        0 <= i < limited(items, limit).len(),
    ensures
        under_limit(limited(items, limit)[i].0.raw@, limit),
    decreases items.len(),
{
    let kept = limited(items.drop_last(), limit);
    if i < kept.len() {
        lemma_limited_is_under(items.drop_last(), limit, i);
    }
}

/// The consolidated page goes with the part of the chain that it leaves alone.
pub open spec fn consolidates_part(
    prefix: Seq<Page>,
    rest: Seq<Page>,
    new: Page,
    pages: Collected,
    safe_lsn: u64,
) -> bool {
    &&& prefix.len() > 0
    &&& holds(pages, prefix)
    &&& new.info.kind is Data
    &&& new.info.tier == prefix[0].info.tier
    &&& new.info.epoch == prefix[0].info.epoch
    &&& chain_limit(prefix) is Some ==> rest.len() == 0
    &&& is_consolidated(new.items, pages, chain_limit(prefix), safe_lsn)
}

/// With one page in the place of its newest pages, a leaf chain is fit for its place.
pub proof fn lemma_consolidated_leaf_ok(
    prefix: Seq<Page>,
    rest: Seq<Page>,
    place: Place,
    new: Page,
    pages: Collected,
    safe_lsn: u64,
)
    requires
        page_ok(prefix + rest, place),
        place.level == 0,
        pages is Values,
        consolidates_part(prefix, rest, new, pages, safe_lsn),
    ensures
        page_ok(seq![new] + rest, place),
        descending(data_values(prefix)),
{
    let old = prefix + rest;
    let all = seq![new] + rest;
    let v = new.items->Values_0;
    let newer = data_values(prefix);
    let older = data_values(rest);
    lemma_data_values_parts(prefix, rest);
    lemma_chain_limit_parts(prefix, rest);
    lemma_chain_limit_front(new, rest);
    assert(old[0] == prefix[0]);
    assert forall|i: int| 0 <= i < newer.len() implies sorted(#[trigger] newer[i]@) by {
        assert(data_values(old)[i] == newer[i]);
    }
    assert forall|i: int, j: int| 0 <= i < j < newer.len() implies dominates(
        #[trigger] newer[i]@,
        #[trigger] newer[j]@,
    ) by {
        assert(data_values(old)[i] == newer[i]);
        assert(data_values(old)[j] == newer[j]);
    }
    assert(descending(newer));
    lemma_consolidated_is_sorted(prefix, rest, new, pages, safe_lsn);
    assert(chain_wf(all)) by {
        assert forall|i: int| 0 <= i < all.len() implies (#[trigger] all[i]).wf() by {
            if i > 0 {
                assert(all[i] == old[prefix.len() + i - 1]);
            }
        }
    }
    assert(one_tier(all, place.level)) by {
        assert forall|i: int| 0 <= i < all.len() implies ((#[trigger] all[i]).info.tier is Leaf
            <==> place.level == 0) by {
            if i > 0 {
                assert(all[i] == old[prefix.len() + i - 1]);
            }
        }
    }
    assert(one_split(rest)) by {
        assert forall|i: int, j: int|
            0 <= i < j < rest.len() && (#[trigger] rest[i]).info.kind is Split implies (
        #[trigger] rest[j]).info.kind is Data by {
            assert(rest[i] == old[prefix.len() + i]);
            assert(rest[j] == old[prefix.len() + j]);
        }
    }
    lemma_one_split_front(new, rest);
    lemma_data_values_first(all);
    assert(all.drop_first() =~= rest);
    let more = seq![v] + older;
    assert(data_values(all) == more);
    assert forall|i: int| 0 <= i < more.len() implies sorted(#[trigger] more[i]@) by {
        if i > 0 {
            assert(more[i] == data_values(old)[newer.len() + i - 1]);
        }
    }
    assert forall|i: int, j: int| 0 <= i < j < more.len() implies dominates(
        #[trigger] more[i]@,
        #[trigger] more[j]@,
    ) by {
        let b = newer.len() + j - 1;
        assert(more[j] == data_values(old)[b]);
        if i > 0 {
            assert(more[i] == data_values(old)[newer.len() + i - 1]);
        } else {
            assert forall|s: int, t: int|
                0 <= s < v@.len() && 0 <= t < more[j]@.len() && #[trigger] v@[s].0.raw@
                    == #[trigger] more[j]@[t].0.raw@ implies v@[s].0.lsn >= more[j]@[t].0.lsn by {
                lemma_consolidated_from(newer, chain_limit(prefix), safe_lsn, s);
                let p = choose|p: int| 0 <= p < newer.len() && is_item(v@[s], #[trigger] newer[p]@);
                let k = choose|k: int| 0 <= k < newer[p]@.len() && #[trigger] newer[p]@[k] == v@[s];
                assert(data_values(old)[p] == newer[p]);
                assert(dominates(data_values(old)[p]@, data_values(old)[b]@));
                assert(newer[p]@[k].0.raw@ == more[j]@[t].0.raw@);
            }
        }
    }
    assert forall|p: int, j: int|
        0 <= p < data_values(all).len() && 0 <= j < data_values(all)[p]@.len() && under_limit(
            (#[trigger] data_values(all)[p]@[j]).0.raw@,
            chain_limit(all),
        ) implies place.range.contains(data_values(all)[p]@[j].0.raw@) by {
        let x = data_values(all)[p]@[j];
        if p > 0 {
            assert(data_values(old)[newer.len() + p - 1]@[j] == x);
        } else {
            lemma_consolidated_from(newer, chain_limit(prefix), safe_lsn, j);
            let q = choose|q: int| 0 <= q < newer.len() && is_item(x, #[trigger] newer[q]@);
            let k = choose|k: int| 0 <= k < newer[q]@.len() && #[trigger] newer[q]@[k] == x;
            assert(data_values(old)[q]@[k] == x);
        }
    }
}

proof fn lemma_consolidated_is_sorted(
    prefix: Seq<Page>,
    rest: Seq<Page>,
    new: Page,
    pages: Collected,
    safe_lsn: u64,
)
    requires
        pages is Values,
        descending(data_values(prefix)),
        consolidates_part(prefix, rest, new, pages, safe_lsn),
    ensures
        new.items is Values,
        new.items.sorted(),
{
    law_consolidated_versions_are_sorted(data_values(prefix), chain_limit(prefix), safe_lsn);
}

/// With one page in the place of its newest pages, a leaf chain can take its own place.
pub proof fn lemma_consolidated_leaf_is_exchangeable(
    f: Forest,
    height: nat,
    id: u64,
    prefix: Seq<Page>,
    rest: Seq<Page>,
    new: Page,
    pages: Collected,
    safe_lsn: u64,
)
    requires
        tree_ok(f, height),
        f.has(id),
        !f.pending(id),
        f.places[id].level == 0,
        f.chains[id] == prefix + rest,
        pages is Values,
        consolidates_part(prefix, rest, new, pages, safe_lsn),
    ensures
        exchangeable(f, id, seq![new] + rest),
        descending(data_values(prefix)),
{
    lemma_consolidated_leaf_ok(prefix, rest, f.places[id], new, pages, safe_lsn);
    assert(f.chains[id][0] == prefix[0]);
}

/// Once a leaf page has taken the place of the newest pages of a leaf chain, the pages still
/// form a tree, and readers at the safe sequence number or later get what they got before.
pub proof fn law_leaf_consolidation_changes_no_read(
    f: Forest,
    height: nat,
    id: u64,
    prefix: Seq<Page>,
    rest: Seq<Page>,
    new: Page,
    pages: Collected,
    safe_lsn: u64,
    raw: Seq<u8>,
    lsn: u64,
)
    requires
        tree_ok(f, height),
        f.has(id),
        !f.pending(id),
        f.places[id].level == 0,
        f.chains[id] == prefix + rest,
        pages is Values,
        consolidates_part(prefix, rest, new, pages, safe_lsn),
        safe_lsn <= lsn,
    ensures
        ({
            let g = exchanged(f, id, seq![new] + rest);
            &&& tree_ok(g, height)
            &&& read(g, height, raw, lsn) == read(f, height, raw, lsn)
        }),
{
    let chain = seq![new] + rest;
    lemma_consolidated_leaf_is_exchangeable(
        f,
        height,
        id,
        prefix,
        rest,
        new,
        pages,
        safe_lsn,
    );
    law_exchange_keeps_the_tree(f, height, id, chain);
    law_exchange_keeps_searches(f, height, id, chain, raw, 0);
    lemma_visited(f, height, raw, 0);
    lemma_chain_limit_parts(prefix, rest);
    if visit(f, height, raw, 0).0.id == id {
        law_consolidation_keeps_reads(prefix, rest, new, pages, safe_lsn, raw, lsn);
    }
}

/// One page that takes the place of an inner chain is fit for the place, and sends every key
/// where the chain sent it.
pub proof fn lemma_consolidated_inner_ok(
    chain: Seq<Page>,
    place: Place,
    new: Page,
    pages: Collected,
    safe_lsn: u64,
)
    requires
        page_ok(chain, place),
        place.level > 0,
        pages is Indexes,
        consolidates_part(chain, Seq::empty(), new, pages, safe_lsn),
    ensures
        page_ok(seq![new], place),
        forall|raw: Seq<u8>|
            under_limit(raw, place.range.end) ==> #[trigger] child_at(
                seq![new],
                place.range.end,
                raw,
            ) == child_at(chain, place.range.end, raw),
{
    let end = place.range.end;
    assert(chain[0].info.tier is Inner);
    assert forall|k: Seq<u8>| #[trigger]
        chain_live(chain, k) is Some && under_limit(k, chain_limit(chain)) implies under_limit(
        k,
        end,
    ) by {
        assert(place.range.contains(k));
    }
    law_consolidation_keeps_children(chain, end, new, pages, safe_lsn);
    let after = seq![new];
    assert(after =~= seq![new] + Seq::<Page>::empty());
    lemma_chain_limit_front(new, Seq::empty());
    assert(under_limit(place.range.start, chain_limit(chain)));
    assert(children_within(after, place.range)) by {
        assert forall|k: Seq<u8>| #[trigger]
            chain_live(after, k) is Some && under_limit(k, chain_limit(after)) implies
            place.range.contains(k) by {
            assert(chain_live(chain, k) is Some);
        }
    }
}

/// One page that takes the place of an inner chain can do so.
pub proof fn lemma_consolidated_inner_is_exchangeable(
    f: Forest,
    height: nat,
    id: u64,
    new: Page,
    pages: Collected,
    safe_lsn: u64,
)
    requires
        tree_ok(f, height),
        f.has(id),
        !f.pending(id),
        f.places[id].level > 0,
        pages is Indexes,
        consolidates_part(f.chains[id], Seq::empty(), new, pages, safe_lsn),
    ensures
        exchangeable(f, id, seq![new]),
{
    let place = f.places[id];
    lemma_consolidated_inner_ok(f.chains[id], place, new, pages, safe_lsn);
    assert forall|raw: Seq<u8>| #[trigger] place.range.contains(raw) implies child_at(
        seq![new],
        place.range.end,
        raw,
    ) == child_at(f.chains[id], place.range.end, raw) by {
        assert(under_limit(raw, place.range.end));
    }
}

/// Once an inner page has taken the place of its chain, the pages still form a tree, and
/// every read gets what it got before.
pub proof fn law_inner_consolidation_changes_no_read(
    f: Forest,
    height: nat,
    id: u64,
    new: Page,
    pages: Collected,
    safe_lsn: u64,
    raw: Seq<u8>,
    lsn: u64,
)
    requires
        tree_ok(f, height),
        f.has(id),
        !f.pending(id),
        f.places[id].level > 0,
        pages is Indexes,
        consolidates_part(f.chains[id], Seq::empty(), new, pages, safe_lsn),
    ensures
        ({
            let g = exchanged(f, id, seq![new]);
            &&& tree_ok(g, height)
            &&& read(g, height, raw, lsn) == read(f, height, raw, lsn)
        }),
{
    let after = seq![new];
    lemma_consolidated_inner_is_exchangeable(f, height, id, new, pages, safe_lsn);
    law_exchange_keeps_the_tree(f, height, id, after);
    law_exchange_keeps_searches(f, height, id, after, raw, 0);
    lemma_visited(f, height, raw, 0);
}

} // verus!
