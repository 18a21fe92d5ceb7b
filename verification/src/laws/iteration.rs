//! The pages that an iterator comes to.

use crate::bytes::{bytes_le, bytes_lt, lemma_bytes_irreflexive, lemma_bytes_le_lt,
    lemma_bytes_order};
use crate::consolidate::is_consolidated;
use crate::iter::{count_before, lemma_count_before_bound, Gather};
use crate::laws::children::{all_live, chain_live, chain_wf, lemma_live_index};
use crate::laws::collection::{chain_limit, holds};
use crate::laws::delta::lemma_page_child;
use crate::laws::forest::{law_a_range_leads_to_one_page, lemma_visited, tree_ok, visit, Forest};
use crate::laws::inner::{child_at, law_consolidation_keeps_children, lemma_single_live, regular};
use crate::laws::order::{lemma_sorted_is_ordered, ordered};
use crate::lookup::is_cover;
use crate::merge::{limit_view, under_limit};
use crate::page::{position_lt, sorted, Index, Items, Page, PageInfo, PageKind, PageTier,
    RangeView, SortedPageKey};
use vstd::prelude::*;

verus! {

/// Where no item stands before one that it follows, the count parts the keys before the target
/// from the others.
pub proof fn lemma_count_before<K: SortedPageKey, V>(
    items: Seq<(K, V)>,
    target: Seq<u8>,
    k: int,
)
    requires
        ordered(items),
        0 <= k < items.len(),
    ensures
        count_before(items, target) <= items.len(),
        k < count_before(items, target) <==> bytes_lt(items[k].0.position().0, target),
    decreases items.len(),
{
    let rest = items.drop_first();
    assert(ordered(rest)) by {
        assert forall|i: int, j: int| 0 <= i < j < rest.len() implies !position_lt(
            #[trigger] rest[j].0.position(),
            #[trigger] rest[i].0.position(),
        ) by {
            assert(!position_lt(items[j + 1].0.position(), items[i + 1].0.position()));
        }
    }
    lemma_count_before_bound(items, target);
    let head = items[0].0.position().0;
    if k > 0 && bytes_lt(head, target) {
        lemma_count_before(rest, target, k - 1);
        assert(rest[k - 1] == items[k]);
    } else if k > 0 {
        let raw = items[k].0.position().0;
        assert(!position_lt(items[k].0.position(), items[0].0.position()));
        lemma_bytes_order(head, raw);
        lemma_bytes_order(head, target);
        lemma_bytes_order(raw, target);
        if head != raw {
            lemma_bytes_le_lt(target, head, raw);
        }
    }
}

/// How many children an iterator leaves behind that has come to the target.
pub open spec fn children_passed(items: Seq<(Vec<u8>, Index)>, target: Seq<u8>) -> int {
    let n = count_before(items, target) as int;
    if n < items.len() && items[n].0@ == target {
        n + 1
    } else {
        n
    }
}

/// Where the child at `k` begins, or the end of the range where there is no such child.
pub open spec fn begins_at(
    items: Seq<(Vec<u8>, Index)>,
    end: Option<Seq<u8>>,
    k: int,
) -> Option<Seq<u8>> {
    if k < items.len() {
        Some(items[k].0@)
    } else {
        end
    }
}

/// The children of an inner page that an iterator has left once it has come to the leaf page
/// of the target: the first one begins where that leaf page ends, and each other one where
/// the one before it ends, up to the end of the inner page.
pub proof fn law_siblings_follow_without_a_gap(
    chain: Seq<Page>,
    end: Option<Seq<u8>>,
    gather: Gather,
    items: Vec<(Vec<u8>, Index)>,
    target: Seq<u8>,
    k: int,
)
    requires
        chain_wf(chain),
        regular(chain, end),
        chain_limit(chain) is Some ==> chain_limit(chain) == end,
        forall|key: Seq<u8>| #[trigger]
            chain_live(chain, key) is Some && under_limit(key, chain_limit(chain))
                ==> under_limit(key, end),
        holds(gather.pages, chain),
        limit_view(gather.range_limit) == chain_limit(chain),
        gather.is_children(items@),
        under_limit(target, end),
        child_at(chain, end, target) is Some,
        children_passed(items@, target) <= k < items@.len(),
    ensures
        (child_at(chain, end, target)->0).1.end == begins_at(
            items@,
            end,
            children_passed(items@, target),
        ),
        child_at(chain, end, items@[k].0@) == Some(
            (
                items@[k].1,
                RangeView { start: items@[k].0@, end: begins_at(items@, end, k + 1) },
            ),
        ),
{
    lemma_children(chain, end, gather, items, target);
    lemma_children(chain, end, gather, items, items@[k].0@);
    let new = whole_page(items);
    assert(is_cover(items@, items@[k].0@, k)) by {
        if k + 1 < items@.len() {
            assert(position_lt(items@[k].0.position(), items@[k + 1].0.position()));
        }
    }
    lemma_page_child(new, items@[k].0@, k);
    lemma_single_live(new, items@[k].0@);
    lemma_siblings_begin(chain, end, gather, items, target);
}

/// Once no child is left, the leaf page of the target ends where the inner page ends.
pub proof fn law_last_sibling_ends_with_its_parent(
    chain: Seq<Page>,
    end: Option<Seq<u8>>,
    gather: Gather,
    items: Vec<(Vec<u8>, Index)>,
    target: Seq<u8>,
)
    requires
        chain_wf(chain),
        regular(chain, end),
        chain_limit(chain) is Some ==> chain_limit(chain) == end,
        forall|key: Seq<u8>| #[trigger]
            chain_live(chain, key) is Some && under_limit(key, chain_limit(chain))
                ==> under_limit(key, end),
        holds(gather.pages, chain),
        limit_view(gather.range_limit) == chain_limit(chain),
        gather.is_children(items@),
        under_limit(target, end),
        child_at(chain, end, target) is Some,
        children_passed(items@, target) == items@.len(),
    ensures
        (child_at(chain, end, target)->0).1.end == end,
{
    lemma_siblings_begin(chain, end, gather, items, target);
}

/// An inner page that holds the children.
pub open spec fn whole_page(items: Vec<(Vec<u8>, Index)>) -> Page {
    Page {
        info: PageInfo {
            tier: PageTier::Inner,
            kind: PageKind::Data,
            epoch: 0,
            chain_len: 1,
            chain_next: 0,
            size: 0,
        },
        items: Items::Indexes(items),
    }
}

pub proof fn lemma_children(
    chain: Seq<Page>,
    end: Option<Seq<u8>>,
    gather: Gather,
    items: Vec<(Vec<u8>, Index)>,
    raw: Seq<u8>,
)
    requires
        chain_wf(chain),
        regular(chain, end),
        chain_limit(chain) is Some ==> chain_limit(chain) == end,
        forall|key: Seq<u8>| #[trigger]
            chain_live(chain, key) is Some && under_limit(key, chain_limit(chain))
                ==> under_limit(key, end),
        holds(gather.pages, chain),
        limit_view(gather.range_limit) == chain_limit(chain),
        gather.is_children(items@),
    ensures
        sorted(items@),
        all_live(items@),
        forall|k: int| 0 <= k < items@.len() ==> under_limit(#[trigger] items@[k].0@, end),
        under_limit(raw, end) ==> child_at(seq![whole_page(items)], end, raw) == child_at(
            chain,
            end,
            raw,
        ),
{
    let new = whole_page(items);
    assert(is_consolidated(new.items, gather.pages, chain_limit(chain), 0));
    law_consolidation_keeps_children(chain, end, new, gather.pages, 0);
    assert forall|k: int| 0 <= k < items@.len() implies under_limit(
        #[trigger] items@[k].0@,
        end,
    ) by {
        lemma_live_index(items@, k);
        lemma_single_live(new, items@[k].0@);
        assert(chain_live(seq![new], items@[k].0@) is Some);
        assert(chain_live(chain, items@[k].0@) is Some);
    }
}

pub proof fn lemma_siblings_begin(
    chain: Seq<Page>,
    end: Option<Seq<u8>>,
    gather: Gather,
    items: Vec<(Vec<u8>, Index)>,
    target: Seq<u8>,
)
    requires
        chain_wf(chain),
        regular(chain, end),
        chain_limit(chain) is Some ==> chain_limit(chain) == end,
        forall|key: Seq<u8>| #[trigger]
            chain_live(chain, key) is Some && under_limit(key, chain_limit(chain))
                ==> under_limit(key, end),
        holds(gather.pages, chain),
        limit_view(gather.range_limit) == chain_limit(chain),
        gather.is_children(items@),
        under_limit(target, end),
        child_at(chain, end, target) is Some,
    ensures
        (child_at(chain, end, target)->0).1.end == begins_at(
            items@,
            end,
            children_passed(items@, target),
        ),
{
    let all = items@;
    let new = whole_page(items);
    lemma_children(chain, end, gather, items, target);
    lemma_single_live(new, target);
    lemma_count_before_bound(all, target);
    let n = children_passed(all, target);
    let i = choose|i: int| is_cover(all, target, i);
    lemma_sorted_is_ordered(all);
    lemma_count_before(all, target, i);
    lemma_page_child(new, target, i);
    lemma_bytes_irreflexive(target);
    lemma_bytes_order(all[i].0@, target);
    if i + 1 < all.len() {
        lemma_count_before(all, target, i + 1);
        lemma_bytes_order(target, all[i + 1].0@);
    }
    if i > 0 {
        lemma_count_before(all, target, i - 1);
        assert(position_lt(all[i - 1].0.position(), all[i].0.position()));
    }
    assert(n == i + 1);
}

/// At every level the pages follow each other without a gap: where the range of one ends, the
/// range of the next begins.
pub proof fn law_ranges_follow_without_a_gap(
    f: Forest,
    height: nat,
    raw: Seq<u8>,
    level: nat,
    end: Seq<u8>,
)
    requires
        tree_ok(f, height),
        level <= height,
        visit(f, height, raw, level).1.end == Some(end),
    ensures
        visit(f, height, end, level).1.start == end,
{
    let range = visit(f, height, raw, level).1;
    let next_range = visit(f, height, end, level).1;
    lemma_visited(f, height, raw, level);
    lemma_visited(f, height, end, level);
    lemma_bytes_irreflexive(end);
    if next_range.start != end {
        lemma_bytes_order(range.start, next_range.start);
        lemma_bytes_le_lt(range.start, raw, end);
        if bytes_le(range.start, next_range.start) {
            assert(range.contains(next_range.start));
            law_a_range_leads_to_one_page(f, height, raw, next_range.start, level);
            assert(next_range.contains(next_range.start)) by {
                lemma_bytes_le_lt(next_range.start, end, next_range.end->0);
            }
            law_a_range_leads_to_one_page(f, height, end, next_range.start, level);
        } else {
            assert(next_range.contains(range.start)) by {
                lemma_bytes_le_lt(range.start, end, next_range.end->0);
            }
            law_a_range_leads_to_one_page(f, height, end, range.start, level);
            assert(range.contains(range.start));
            law_a_range_leads_to_one_page(f, height, raw, range.start, level);
        }
    }
}

} // verus!
