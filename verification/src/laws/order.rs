//! What merging and dropping do to the order of items.

use crate::bytes::{bytes_le, lemma_bytes_order};
use crate::laws::children::lemma_live_children_sorted;
use crate::laws::versions::{is_item, lemma_limited_subset, lemma_merged_pair_from,
    lemma_needed_subset};
use crate::merge::{is_covered, limited, live_children, merged, merged_onto, merged_pair,
    needed_versions};
use crate::page::{lemma_position_asymmetric, lemma_position_irreflexive, lemma_position_total,
    lemma_position_transitive, position_lt, sorted, Index, Key, Position, SortedPageKey, Value};
use vstd::prelude::*;

verus! {

/// No item stands before one that it follows.
pub open spec fn ordered<K: SortedPageKey, V>(items: Seq<(K, V)>) -> bool {
    forall|i: int, j: int|
        0 <= i < j < items.len() ==> !position_lt(
            #[trigger] items[j].0.position(),
            #[trigger] items[i].0.position(),
        )
}

/// What does not stand after a position does not stand after a later one.
pub proof fn lemma_not_after(a: Position, b: Position, c: Position)
    requires
        !position_lt(b, a),
        !position_lt(c, b),
    ensures
        !position_lt(c, a),
{
    lemma_position_total(a, b);
    lemma_position_total(b, c);
    lemma_position_irreflexive(a);
    if position_lt(a, b) && position_lt(b, c) {
        lemma_position_transitive(a, b, c);
        lemma_position_asymmetric(a, c);
    } else if position_lt(a, b) {
        lemma_position_asymmetric(a, b);
    } else if position_lt(b, c) {
        lemma_position_asymmetric(b, c);
    }
}

pub proof fn lemma_sorted_is_ordered<K: SortedPageKey, V>(items: Seq<(K, V)>)
    requires
        sorted(items),
    ensures
        ordered(items),
{
    assert forall|i: int, j: int| 0 <= i < j < items.len() implies !position_lt(
        #[trigger] items[j].0.position(),
        #[trigger] items[i].0.position(),
    ) by {
        lemma_position_asymmetric(items[i].0.position(), items[j].0.position());
    }
}

pub proof fn lemma_drop_last_ordered<K: SortedPageKey, V>(items: Seq<(K, V)>)
    requires
        ordered(items),
        items.len() > 0,
    ensures
        ordered(items.drop_last()),
{
    let rest = items.drop_last();
    assert forall|i: int, j: int| 0 <= i < j < rest.len() implies !position_lt(
        #[trigger] rest[j].0.position(),
        #[trigger] rest[i].0.position(),
    ) by {
        assert(!position_lt(items[j].0.position(), items[i].0.position()));
    }
}

/// A part of ordered items is ordered.
pub proof fn lemma_part_ordered<K: SortedPageKey, V>(items: Seq<(K, V)>, from: int, to: int)
    requires
        ordered(items),
        0 <= from <= to <= items.len(),
    ensures
        ordered(items.subrange(from, to)),
{
    let part = items.subrange(from, to);
    assert forall|i: int, j: int| 0 <= i < j < part.len() implies !position_lt(
        #[trigger] part[j].0.position(),
        #[trigger] part[i].0.position(),
    ) by {
        assert(!position_lt(items[from + j].0.position(), items[from + i].0.position()));
    }
}

/// Items of ordered pages do not stand after the last one.
pub proof fn lemma_last_is_last<K: SortedPageKey, V>(items: Seq<(K, V)>, x: (K, V))
    requires
        ordered(items),
        is_item(x, items),
    ensures
        !position_lt(items.last().0.position(), x.0.position()),
{
    let i = choose|i: int| 0 <= i < items.len() && #[trigger] items[i] == x;
    let n = items.len() - 1;
    lemma_position_irreflexive(x.0.position());
    if i < n {
        assert(!position_lt(items[n].0.position(), items[i].0.position()));
    }
}

pub proof fn lemma_merged_pair_ordered<K: SortedPageKey, V>(newer: Seq<(K, V)>, older: Seq<(K, V)>)
    requires
        ordered(newer),
        ordered(older),
    ensures
        ordered(merged_pair(newer, older)),
    decreases newer.len() + older.len(),
{
    if newer.len() > 0 && older.len() > 0 {
        let n = newer.last().0.position();
        let o = older.last().0.position();
        let from_newer = position_lt(o, n);
        let (a, b) = if from_newer {
            (newer.drop_last(), older)
        } else {
            (newer, older.drop_last())
        };
        let x = if from_newer {
            newer.last()
        } else {
            older.last()
        };
        lemma_drop_last_ordered(newer);
        lemma_drop_last_ordered(older);
        lemma_merged_pair_ordered(a, b);
        let rest = merged_pair(a, b);
        let all = merged_pair(newer, older);
        assert(all =~= rest.push(x));
        assert forall|i: int, j: int| 0 <= i < j < all.len() implies !position_lt(
            #[trigger] all[j].0.position(),
            #[trigger] all[i].0.position(),
        ) by {
            if j < rest.len() {
                assert(!position_lt(rest[j].0.position(), rest[i].0.position()));
            } else {
                let y = rest[i];
                lemma_merged_pair_from(a, b, i);
                if exists|k: int| 0 <= k < a.len() && #[trigger] a[k] == y {
                    let k = choose|k: int| 0 <= k < a.len() && #[trigger] a[k] == y;
                    assert(newer[k] == y);
                    lemma_last_is_last(newer, y);
                    if !from_newer {
                        lemma_not_after(y.0.position(), n, o);
                    }
                } else {
                    let k = choose|k: int| 0 <= k < b.len() && #[trigger] b[k] == y;
                    assert(older[k] == y);
                    lemma_last_is_last(older, y);
                    if from_newer {
                        lemma_position_asymmetric(o, n);
                        lemma_not_after(y.0.position(), o, n);
                    }
                }
            }
        }
    }
}

pub proof fn lemma_merged_onto_ordered<K: SortedPageKey, V>(
    pages: Seq<Vec<(K, V)>>,
    oldest: Seq<(K, V)>,
)
    requires
        forall|i: int| 0 <= i < pages.len() ==> sorted(#[trigger] pages[i]@),
        ordered(oldest),
    ensures
        ordered(merged_onto(pages, oldest)),
    decreases pages.len(),
{
    if pages.len() > 0 {
        let rest = pages.drop_last();
        assert forall|i: int| 0 <= i < rest.len() implies sorted(#[trigger] rest[i]@) by {
            assert(rest[i] == pages[i]);
        }
        assert(pages.last() == pages[pages.len() - 1]);
        lemma_sorted_is_ordered(pages.last()@);
        lemma_merged_pair_ordered(pages.last()@, oldest);
        lemma_merged_onto_ordered(rest, merged_pair(pages.last()@, oldest));
    }
}

pub proof fn lemma_limited_ordered<K: SortedPageKey, V>(items: Seq<(K, V)>, limit: Option<Seq<u8>>)
    requires
        ordered(items),
    ensures
        ordered(limited(items, limit)),
    decreases items.len(),
{
    if items.len() > 0 {
        let rest = items.drop_last();
        let kept = limited(rest, limit);
        let all = limited(items, limit);
        lemma_drop_last_ordered(items);
        lemma_limited_ordered(rest, limit);
        assert forall|i: int, j: int| 0 <= i < j < all.len() implies !position_lt(
            #[trigger] all[j].0.position(),
            #[trigger] all[i].0.position(),
        ) by {
            if j < kept.len() {
                assert(!position_lt(kept[j].0.position(), kept[i].0.position()));
            } else {
                lemma_limited_subset(rest, limit, i);
                let k = choose|k: int| 0 <= k < rest.len() && #[trigger] rest[k] == kept[i];
                assert(items[k] == kept[i]);
                lemma_last_is_last(items, kept[i]);
            }
        }
    }
}

/// Of ordered versions, those that are kept are strictly in order.
proof fn lemma_needed_sorted(items: Seq<(Key, Value)>, safe_lsn: u64)
    requires
        ordered(items),
    ensures
        sorted(needed_versions(items, safe_lsn)),
    decreases items.len(),
{
    if items.len() > 0 {
        let rest = items.drop_last();
        let x = items.last();
        let kept = needed_versions(rest, safe_lsn);
        let all = needed_versions(items, safe_lsn);
        lemma_drop_last_ordered(items);
        lemma_needed_sorted(rest, safe_lsn);
        if kept.len() == 0 || !is_covered(kept.last().0, x.0, safe_lsn) {
            assert(all =~= kept.push(x));
            assert forall|i: int, j: int| 0 <= i < j < all.len() implies position_lt(
                #[trigger] all[i].0.position(),
                #[trigger] all[j].0.position(),
            ) by {
                let m = kept.len() - 1;
                if j <= m {
                    assert(position_lt(kept[i].0.position(), kept[j].0.position()));
                } else {
                    lemma_needed_subset(rest, safe_lsn, m);
                    let k = choose|k: int| 0 <= k < rest.len() && #[trigger] rest[k] == kept[m];
                    assert(items[k] == kept[m]);
                    lemma_last_is_last(items, kept[m]);
                    lemma_position_total(kept[m].0.position(), x.0.position());
                    if i < m {
                        assert(position_lt(kept[i].0.position(), kept[m].0.position()));
                        lemma_position_transitive(
                            kept[i].0.position(),
                            kept[m].0.position(),
                            x.0.position(),
                        );
                    }
                }
            }
        }
    }
}

/// The versions that a consolidated leaf page holds are in order, whatever versions of a key
/// the pages have in common.
pub proof fn law_consolidated_versions_are_sorted(
    pages: Seq<Vec<(Key, Value)>>,
    limit: Option<Seq<u8>>,
    safe_lsn: u64,
)
    requires
        forall|i: int| 0 <= i < pages.len() ==> sorted(#[trigger] pages[i]@),
    ensures
        sorted(needed_versions(limited(merged(pages), limit), safe_lsn)),
{
    lemma_merged_onto_ordered(pages, Seq::empty());
    lemma_limited_ordered(merged(pages), limit);
    lemma_needed_sorted(limited(merged(pages), limit), safe_lsn);
}

/// The children that a consolidated inner page refers to are in order.
pub proof fn law_consolidated_children_are_sorted(
    pages: Seq<Vec<(Vec<u8>, Index)>>,
    limit: Option<Seq<u8>>,
)
    requires
        forall|i: int| 0 <= i < pages.len() ==> sorted(#[trigger] pages[i]@),
    ensures
        sorted(live_children(limited(merged(pages), limit))),
{
    let few = limited(merged(pages), limit);
    lemma_merged_onto_ordered(pages, Seq::empty());
    lemma_limited_ordered(merged(pages), limit);
    assert forall|i: int, j: int| 0 <= i < j < few.len() implies bytes_le(
        #[trigger] few[i].0@,
        #[trigger] few[j].0@,
    ) by {
        assert(!position_lt(few[j].0.position(), few[i].0.position()));
        lemma_bytes_order(few[i].0@, few[j].0@);
    }
    lemma_live_children_sorted(few);
}

} // verus!
