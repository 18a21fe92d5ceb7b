//! Which versions and which children merging and dropping keep.

use crate::bytes::{bytes_lt, lemma_bytes_order};
use crate::laws::order::{lemma_drop_last_ordered, ordered};
use crate::merge::{is_covered, limited, live_children, merged, merged_onto, merged_pair,
    needed_versions};
use crate::page::{position_lt, Index, Key, SortedPageKey, Value};
use vstd::multiset::Multiset;
use vstd::prelude::*;

verus! {

/// `kept` holds the items at the given places, in their order.
pub open spec fn stand_at<T>(kept: Seq<T>, items: Seq<T>, places: Seq<int>) -> bool {
    &&& places.len() == kept.len()
    &&& forall|j: int|
        0 <= j < places.len() ==> 0 <= #[trigger] places[j] < items.len() && kept[j]
            == items[places[j]]
    &&& forall|i: int, j: int|
        0 <= i < j < places.len() ==> #[trigger] places[i] < #[trigger] places[j]
}

/// A version in front of the one at `i` makes it useless: it belongs to the same key, and
/// either every reader at the safe sequence number or later sees it, or both have the same
/// sequence number.
pub open spec fn is_useless(items: Seq<(Key, Value)>, safe_lsn: u64, i: int) -> bool {
    exists|j: int|
        0 <= j < i && (#[trigger] items[j]).0.raw@ == items[i].0.raw@ && (items[j].0.lsn
            <= safe_lsn || items[j].0.lsn == items[i].0.lsn)
}

/// A version is dropped exactly if one in front of it makes it useless.
pub proof fn law_useless_versions_are_dropped(items: Seq<(Key, Value)>, safe_lsn: u64) -> (places:
    Seq<int>)
    requires
        ordered(items),
    ensures
        stand_at(needed_versions(items, safe_lsn), items, places),
        forall|i: int|
            0 <= i < items.len() ==> (#[trigger] places.contains(i) <==> !is_useless(
                items,
                safe_lsn,
                i,
            )),
    decreases items.len(),
{
    if items.len() == 0 {
        Seq::empty()
    } else {
        let rest = items.drop_last();
        let n = rest.len() as int;
        let x = items.last();
        lemma_drop_last_ordered(items);
        let before = law_useless_versions_are_dropped(rest, safe_lsn);
        let kept = needed_versions(rest, safe_lsn);
        assert forall|i: int| 0 <= i < n implies is_useless(rest, safe_lsn, i) == is_useless(
            items,
            safe_lsn,
            i,
        ) by {
            if is_useless(rest, safe_lsn, i) {
                let j = choose|j: int|
                    0 <= j < i && (#[trigger] rest[j]).0.raw@ == rest[i].0.raw@ && (rest[j].0.lsn
                        <= safe_lsn || rest[j].0.lsn == rest[i].0.lsn);
                assert(items[j] == rest[j]);
            }
            if is_useless(items, safe_lsn, i) {
                let j = choose|j: int|
                    0 <= j < i && (#[trigger] items[j]).0.raw@ == items[i].0.raw@ && (
                    items[j].0.lsn <= safe_lsn || items[j].0.lsn == items[i].0.lsn);
                assert(rest[j] == items[j]);
            }
        }
        if kept.len() > 0 && is_covered(kept.last().0, x.0, safe_lsn) {
            let last = before[before.len() - 1];
            assert(items[last] == kept.last());
            assert(is_useless(items, safe_lsn, n));
            assert(!before.contains(n));
            before
        } else {
            let places = before.push(n);
            assert forall|i: int| 0 <= i < items.len() implies (#[trigger] places.contains(i)
                <==> !is_useless(items, safe_lsn, i)) by {
                if i == n {
                    assert(places[places.len() - 1] == n);
                    if is_useless(items, safe_lsn, n) {
                        lemma_last_kept(items, safe_lsn, before);
                    }
                } else {
                    if before.contains(i) {
                        let k = choose|k: int| 0 <= k < before.len() && before[k] == i;
                        assert(places[k] == i);
                    }
                    if places.contains(i) {
                        let k = choose|k: int| 0 <= k < places.len() && places[k] == i;
                        assert(before[k] == i);
                    }
                }
            }
            places
        }
    }
}

/// Where a version in front makes the last one useless, the last version that was kept does.
proof fn lemma_last_kept(items: Seq<(Key, Value)>, safe_lsn: u64, before: Seq<int>)
    requires
        ordered(items),
        items.len() > 0,
        is_useless(items, safe_lsn, items.len() - 1),
        stand_at(needed_versions(items.drop_last(), safe_lsn), items.drop_last(), before),
        forall|i: int|
            0 <= i < items.len() - 1 ==> (#[trigger] before.contains(i) <==> !is_useless(
                items,
                safe_lsn,
                i,
            )),
    ensures
        ({
            let kept = needed_versions(items.drop_last(), safe_lsn);
            kept.len() > 0 && is_covered(kept.last().0, items.last().0, safe_lsn)
        }),
{
    let n = items.len() - 1;
    let rest = items.drop_last();
    let kept = needed_versions(rest, safe_lsn);
    let j = choose|j: int|
        0 <= j < n && (#[trigger] items[j]).0.raw@ == items[n].0.raw@ && (items[j].0.lsn
            <= safe_lsn || items[j].0.lsn == items[n].0.lsn);
    let k = lemma_kept_with(items, safe_lsn, before, j);
    assert(items[k].0.raw@ == items[n].0.raw@);
    assert(before.contains(k));
    let at = choose|at: int| 0 <= at < before.len() && before[at] == k;
    let last = before[before.len() - 1];
    assert(k <= last) by {
        if at < before.len() - 1 {
            assert(before[at] < before[before.len() - 1]);
        }
    }
    lemma_between(items, k, last, n);
    assert(kept.last() == items[last]);
    if k < last {
        assert(before.contains(last));
        if items[k].0.lsn <= safe_lsn {
            assert(is_useless(items, safe_lsn, last));
        }
    }
    assert(k == last || items[k].0.lsn > safe_lsn);
    if k == last {
        lemma_descending(items, j, n);
    } else {
        // What makes the last version useless has its sequence number, and so has every version
        // in between.
        lemma_descending(items, j, n);
        assert(items[j].0.lsn == items[n].0.lsn || items[j].0.lsn <= safe_lsn);
        if items[j].0.lsn <= safe_lsn {
            assert(items[k].0.lsn == items[j].0.lsn);
        } else {
            assert(items[k].0.lsn == items[n].0.lsn);
            lemma_descending(items, k, last);
            lemma_descending(items, last, n);
            assert(items[last].0.lsn == items[n].0.lsn);
        }
    }
}

/// A version that makes others useless is kept, or one in front of it is that makes the same
/// ones useless.
proof fn lemma_kept_with(items: Seq<(Key, Value)>, safe_lsn: u64, before: Seq<int>, j: int) -> (k:
    int)
    requires
        ordered(items),
        0 <= j < items.len() - 1,
        forall|i: int|
            0 <= i < items.len() - 1 ==> (#[trigger] before.contains(i) <==> !is_useless(
                items,
                safe_lsn,
                i,
            )),
    ensures
        0 <= k <= j,
        before.contains(k),
        items[k].0.raw@ == items[j].0.raw@,
        items[k].0.lsn <= safe_lsn || items[k].0.lsn == items[j].0.lsn,
    decreases j,
{
    if is_useless(items, safe_lsn, j) {
        let i = choose|i: int|
            0 <= i < j && (#[trigger] items[i]).0.raw@ == items[j].0.raw@ && (items[i].0.lsn
                <= safe_lsn || items[i].0.lsn == items[j].0.lsn);
        lemma_kept_with(items, safe_lsn, before, i)
    } else {
        assert(before.contains(j));
        j
    }
}

/// What stands between two versions of a key is a version of that key too.
proof fn lemma_between<K: SortedPageKey, V>(items: Seq<(K, V)>, i: int, k: int, j: int)
    requires
        ordered(items),
        0 <= i <= k <= j < items.len(),
        items[i].0.position().0 == items[j].0.position().0,
    ensures
        items[k].0.position().0 == items[i].0.position().0,
{
    if i < k && k < j {
        let a = items[i].0.position();
        let b = items[k].0.position();
        let c = items[j].0.position();
        lemma_bytes_order(a.0, b.0);
        lemma_bytes_order(b.0, a.0);
        lemma_bytes_order(c.0, b.0);
    }
}

/// The versions of a key get no newer.
proof fn lemma_descending(items: Seq<(Key, Value)>, i: int, j: int)
    requires
        ordered(items),
        0 <= i <= j < items.len(),
        items[i].0.raw@ == items[j].0.raw@,
    ensures
        items[i].0.lsn >= items[j].0.lsn,
{
    if i < j {
        let a = items[i].0.position();
        let b = items[j].0.position();
        assert(!position_lt(b, a));
    }
}

/// The reference is a placeholder.
pub open spec fn leads_nowhere(index: Index) -> bool {
    index.id == 0 && index.epoch == 0
}

/// A reference in front of the one at `i` has replaced it: it is no placeholder, and has the
/// same key.
pub open spec fn is_replaced(items: Seq<(Vec<u8>, Index)>, i: int) -> bool {
    exists|j: int|
        0 <= j < i && (#[trigger] items[j]).0@ == items[i].0@ && !leads_nowhere(items[j].1)
}

/// A reference is dropped exactly if it is a placeholder or one in front of it has replaced
/// it.
pub proof fn law_dead_children_are_dropped(items: Seq<(Vec<u8>, Index)>) -> (places: Seq<int>)
    requires
        ordered(items),
    ensures
        stand_at(live_children(items), items, places),
        forall|i: int|
            0 <= i < items.len() ==> (#[trigger] places.contains(i) <==> !leads_nowhere(items[i].1)
                && !is_replaced(items, i)),
    decreases items.len(),
{
    if items.len() == 0 {
        Seq::empty()
    } else {
        let rest = items.drop_last();
        let n = rest.len() as int;
        let x = items.last();
        lemma_drop_last_ordered(items);
        let before = law_dead_children_are_dropped(rest);
        let kept = live_children(rest);
        assert forall|i: int| 0 <= i < n implies is_replaced(rest, i) == is_replaced(items, i) by {
            if is_replaced(rest, i) {
                let j = choose|j: int|
                    0 <= j < i && (#[trigger] rest[j]).0@ == rest[i].0@ && !leads_nowhere(
                        rest[j].1,
                    );
                assert(items[j] == rest[j]);
            }
            if is_replaced(items, i) {
                let j = choose|j: int|
                    0 <= j < i && (#[trigger] items[j]).0@ == items[i].0@ && !leads_nowhere(
                        items[j].1,
                    );
                assert(rest[j] == items[j]);
            }
        }
        if leads_nowhere(x.1) || (kept.len() > 0 && kept.last().0@ == x.0@) {
            if !leads_nowhere(x.1) {
                let last = before[before.len() - 1];
                assert(items[last] == kept.last());
                assert(before.contains(last));
                assert(!leads_nowhere(items[last].1));
                assert(is_replaced(items, n));
            }
            assert(!before.contains(n));
            before
        } else {
            let places = before.push(n);
            if is_replaced(items, n) {
                let j = choose|j: int|
                    0 <= j < n && (#[trigger] items[j]).0@ == items[n].0@ && !leads_nowhere(
                        items[j].1,
                    );
                let k = lemma_kept_child(items, before, j);
                let at = choose|at: int| 0 <= at < before.len() && before[at] == k;
                let last = before[before.len() - 1];
                if at < before.len() - 1 {
                    assert(before[at] < before[before.len() - 1]);
                }
                lemma_between(items, k, last, n);
                assert(kept.last() == items[last]);
                assert(false);
            }
            assert forall|i: int| 0 <= i < items.len() implies (#[trigger] places.contains(i)
                <==> !leads_nowhere(items[i].1) && !is_replaced(items, i)) by {
                if i == n {
                    assert(places[places.len() - 1] == n);
                } else {
                    if before.contains(i) {
                        let k = choose|k: int| 0 <= k < before.len() && before[k] == i;
                        assert(places[k] == i);
                    }
                    if places.contains(i) {
                        let k = choose|k: int| 0 <= k < places.len() && places[k] == i;
                        assert(before[k] == i);
                    }
                }
            }
            places
        }
    }
}

proof fn lemma_kept_child(items: Seq<(Vec<u8>, Index)>, before: Seq<int>, j: int) -> (k: int)
    requires
        0 <= j < items.len() - 1,
        !leads_nowhere(items[j].1),
        forall|i: int|
            0 <= i < items.len() - 1 ==> (#[trigger] before.contains(i) <==> !leads_nowhere(
                items[i].1,
            ) && !is_replaced(items, i)),
    ensures
        0 <= k <= j,
        before.contains(k),
        items[k].0@ == items[j].0@,
    decreases j,
{
    if is_replaced(items, j) {
        let i = choose|i: int|
            0 <= i < j && (#[trigger] items[i]).0@ == items[j].0@ && !leads_nowhere(items[i].1);
        lemma_kept_child(items, before, i)
    } else {
        assert(before.contains(j));
        j
    }
}

/// An item is left out exactly if its key is at the limit or beyond it.
pub proof fn law_limit_leaves_out_what_is_beyond<K: SortedPageKey, V>(
    items: Seq<(K, V)>,
    limit: Option<Seq<u8>>,
) -> (places: Seq<int>)
    ensures
        stand_at(limited(items, limit), items, places),
        forall|i: int|
            0 <= i < items.len() ==> (#[trigger] places.contains(i) <==> match limit {
                Some(end) => bytes_lt(items[i].0.position().0, end),
                None => true,
            }),
    decreases items.len(),
{
    if items.len() == 0 {
        Seq::empty()
    } else {
        let rest = items.drop_last();
        let n = rest.len() as int;
        let before = law_limit_leaves_out_what_is_beyond(rest, limit);
        let stays = match limit {
            Some(end) => bytes_lt(items[n].0.position().0, end),
            None => true,
        };
        if stays {
            let places = before.push(n);
            assert forall|i: int| 0 <= i < items.len() implies (#[trigger] places.contains(i)
                <==> match limit {
                Some(end) => bytes_lt(items[i].0.position().0, end),
                None => true,
            }) by {
                if i == n {
                    assert(places[places.len() - 1] == n);
                } else {
                    assert(rest[i] == items[i]);
                    if before.contains(i) {
                        let k = choose|k: int| 0 <= k < before.len() && before[k] == i;
                        assert(places[k] == i);
                    }
                    if places.contains(i) {
                        let k = choose|k: int| 0 <= k < places.len() && places[k] == i;
                        assert(before[k] == i);
                    }
                }
            }
            places
        } else {
            assert(!before.contains(n));
            assert forall|i: int| 0 <= i < items.len() implies (#[trigger] before.contains(i)
                <==> match limit {
                Some(end) => bytes_lt(items[i].0.position().0, end),
                None => true,
            }) by {
                if i < n {
                    assert(rest[i] == items[i]);
                }
            }
            before
        }
    }
}

/// All that pages hold together.
pub open spec fn contents<K, V>(pages: Seq<Vec<(K, V)>>) -> Multiset<(K, V)>
    decreases pages.len(),
{
    if pages.len() == 0 {
        Multiset::empty()
    } else {
        contents(pages.drop_last()).add(pages.last()@.to_multiset())
    }
}

/// Merging pages loses nothing and adds nothing.
pub proof fn law_merging_keeps_everything<K: SortedPageKey, V>(pages: Seq<Vec<(K, V)>>)
    ensures
        merged(pages).to_multiset() =~= contents(pages),
{
    lemma_merged_onto_contents(pages, Seq::empty());
    Seq::<(K, V)>::empty().to_multiset_ensures();
    assert(Seq::<(K, V)>::empty().to_multiset() =~= Multiset::empty());
}

proof fn lemma_merged_onto_contents<K: SortedPageKey, V>(
    pages: Seq<Vec<(K, V)>>,
    oldest: Seq<(K, V)>,
)
    ensures
        merged_onto(pages, oldest).to_multiset() =~= contents(pages).add(oldest.to_multiset()),
    decreases pages.len(),
{
    if pages.len() > 0 {
        let last = pages.last()@;
        lemma_merged_pair_contents(last, oldest);
        lemma_merged_onto_contents(pages.drop_last(), merged_pair(last, oldest));
    }
}

/// Merging two pages loses nothing and adds nothing.
pub proof fn lemma_merged_pair_contents<K: SortedPageKey, V>(newer: Seq<(K, V)>, older: Seq<(K, V)>)
    ensures
        merged_pair(newer, older).to_multiset() =~= newer.to_multiset().add(older.to_multiset()),
    decreases newer.len() + older.len(),
{
    broadcast use vstd::seq_lib::group_to_multiset_ensures;

    let all = merged_pair(newer, older);
    if newer.len() == 0 {
        assert(newer =~= Seq::<(K, V)>::empty());
        assert(newer.to_multiset() =~= Multiset::empty());
    } else if older.len() == 0 {
        assert(older =~= Seq::<(K, V)>::empty());
        assert(older.to_multiset() =~= Multiset::empty());
    } else {
        assert(newer =~= newer.drop_last().push(newer.last()));
        assert(older =~= older.drop_last().push(older.last()));
        if position_lt(older.last().0.position(), newer.last().0.position()) {
            lemma_merged_pair_contents(newer.drop_last(), older);
        } else {
            lemma_merged_pair_contents(newer, older.drop_last());
        }
    }
}

} // verus!
