//! Merging the contents of the pages of a chain, and dividing the contents of a page.

use crate::bytes::{bytes_copy, bytes_less, bytes_same};
use crate::bytes::bytes_lt;
use crate::laws::dividing::{has_one_key_up_to_the_middle, is_first_of_the_middle, joins,
    law_page_divides_in_the_middle};
use crate::page::{null_index, position_lt};
use crate::page::{stands_before, Index, Items, Key, SortedPageKey, Value, NAN_ID};
use vstd::prelude::*;

verus! {

/// The items of two pages in one order. Where both hold the same position, the item of
/// `newer` comes first.
pub open spec fn merged_pair<K: SortedPageKey, V>(
    newer: Seq<(K, V)>,
    older: Seq<(K, V)>,
) -> Seq<(K, V)>
    decreases newer.len() + older.len(),
{
    if newer.len() == 0 {
        older
    } else if older.len() == 0 {
        newer
    } else if position_lt(older.last().0.position(), newer.last().0.position()) {
        merged_pair(newer.drop_last(), older).push(newer.last())
    } else {
        merged_pair(newer, older.drop_last()).push(older.last())
    }
}

/// The items of the pages, newest first, merged onto items that are older than all of
/// them.
pub open spec fn merged_onto<K: SortedPageKey, V>(
    pages: Seq<Vec<(K, V)>>,
    oldest: Seq<(K, V)>,
) -> Seq<(K, V)>
    decreases pages.len(),
{
    if pages.len() == 0 {
        oldest
    } else {
        merged_onto(pages.drop_last(), merged_pair(pages.last()@, oldest))
    }
}

/// The items of the pages, newest first, in one order.
pub open spec fn merged<K: SortedPageKey, V>(pages: Seq<Vec<(K, V)>>) -> Seq<(K, V)> {
    merged_onto(pages, Seq::empty())
}

/// Turns the order of the elements around.
fn reversed<T>(v: Vec<T>) -> (r: Vec<T>)
    ensures
        r@ == v@.reverse(),
{
    let ghost all = v@;
    let mut v = v;
    let mut r: Vec<T> = Vec::new();
    while v.len() > 0
        invariant
            v@.len() <= all.len(),
            v@ == all.take(v@.len() as int),
            r@ == all.skip(v@.len() as int).reverse(),
        decreases v@.len(),
    {
        let ghost n = v@.len() as int;
        match v.pop() {
            Some(x) => {
                r.push(x);
                assert(all.skip(n - 1).reverse() =~= all.skip(n).reverse().push(all[n - 1]));
                assert(v@ =~= all.take(n - 1));
            },
            None => {},
        }
    }
    assert(all.skip(0) =~= all);
    r
}

/// Merges the items of two pages.
pub fn merge_pair<K: SortedPageKey, V>(newer: Vec<(K, V)>, older: Vec<(K, V)>) -> (r: Vec<(K, V)>)
    ensures
        r@ == merged_pair(newer@, older@),
{
    let ghost all = merged_pair(newer@, older@);
    let mut newer = newer;
    let mut older = older;
    // What has been taken from the ends, last item first.
    let mut taken: Vec<(K, V)> = Vec::new();
    assert(all =~= merged_pair(newer@, older@) + taken@.reverse());
    while newer.len() > 0 && older.len() > 0
        invariant
            all == merged_pair(newer@, older@) + taken@.reverse(),
        decreases newer@.len() + older@.len(),
    {
        let n: usize = newer.len();
        let o: usize = older.len();
        let ghost before = taken@;
        let ghost rest_newer = newer@;
        let ghost rest_older = older@;
        let last = if stands_before(
            &older[o - 1].0,
            newer[n - 1].0.as_raw(),
            newer[n - 1].0.version(),
        ) {
            newer.pop()
        } else {
            older.pop()
        };
        match last {
            Some(item) => {
                taken.push(item);
                proof {
                    assert(rest_newer.subrange(0, n - 1) =~= rest_newer.drop_last());
                    assert(rest_older.subrange(0, o - 1) =~= rest_older.drop_last());
                    assert(taken@.reverse() =~= seq![item] + before.reverse());
                    assert(merged_pair(newer@, older@).push(item) + before.reverse()
                        =~= merged_pair(newer@, older@) + (seq![item] + before.reverse()));
                }
            },
            None => {},
        }
    }
    let mut r = if newer.len() == 0 {
        older
    } else {
        newer
    };
    let mut rest = reversed(taken);
    r.append(&mut rest);
    r
}

/// Merges the items of the pages, newest first.
pub fn merge_pages<K: SortedPageKey, V>(pages: Vec<Vec<(K, V)>>) -> (r: Vec<(K, V)>)
    ensures
        r@ == merged(pages@),
{
    let ghost all = merged(pages@);
    let mut pages = pages;
    let mut r: Vec<(K, V)> = Vec::new();
    assert(r@ =~= Seq::<(K, V)>::empty());
    while pages.len() > 0
        invariant
            all == merged_onto(pages@, r@),
        decreases pages@.len(),
    {
        let ghost rest = pages@;
        match pages.pop() {
            Some(page) => {
                assert(pages@ =~= rest.drop_last());
                r = merge_pair(page, r);
            },
            None => {},
        }
    }
    r
}

/// The key comes before the limit, if there is one.
pub open spec fn under_limit(raw: Seq<u8>, limit: Option<Seq<u8>>) -> bool {
    limit matches Some(end) ==> bytes_lt(raw, end)
}

/// The items whose keys come before the limit.
pub open spec fn limited<K: SortedPageKey, V>(
    items: Seq<(K, V)>,
    limit: Option<Seq<u8>>,
) -> Seq<(K, V)>
    decreases items.len(),
{
    if items.len() == 0 {
        items
    } else {
        let rest = limited(items.drop_last(), limit);
        if under_limit(items.last().0.position().0, limit) {
            rest.push(items.last())
        } else {
            rest
        }
    }
}

/// The limit as a plain byte string.
pub open spec fn limit_view(limit: Option<Vec<u8>>) -> Option<Seq<u8>> {
    match limit {
        Some(end) => Some(end@),
        None => None,
    }
}

/// Keeps the items whose keys come before the limit.
pub fn limit_items<K: SortedPageKey, V>(items: Vec<(K, V)>, limit: &Option<Vec<u8>>) -> (r: Vec<
    (K, V),
>)
    ensures
        r@ == limited(items@, limit_view(*limit)),
{
    let ghost all = items@;
    let ghost end = limit_view(*limit);
    let mut left = reversed(items);
    let mut r: Vec<(K, V)> = Vec::new();
    let ghost mut n: int = 0;
    assert(all.skip(0) =~= all);
    assert(all.take(0) =~= Seq::<(K, V)>::empty());
    assert(r@ =~= limited(all.take(0), end));
    while left.len() > 0
        invariant
            end == limit_view(*limit),
            0 <= n <= all.len(),
            left@ == all.skip(n).reverse(),
            r@ == limited(all.take(n), end),
        decreases left@.len(),
    {
        let ghost before = left@;
        match left.pop() {
            Some(item) => {
                proof {
                    assert(before.last() == all[n]);
                    assert(all.take(n + 1).drop_last() =~= all.take(n));
                    assert(left@ =~= all.skip(n + 1).reverse());
                    n = n + 1;
                }
                let keep: bool = match limit {
                    Some(end) => bytes_less(item.0.as_raw(), end.as_slice()),
                    None => true,
                };
                if keep {
                    r.push(item);
                }
            },
            None => {},
        }
    }
    assert(all.take(all.len() as int) =~= all);
    r
}

/// The version that follows another one of the same key is not seen: the one before it is
/// safe, or has the same sequence number and is the newer one.
pub open spec fn is_covered(newer: Key, older: Key, safe_lsn: u64) -> bool {
    newer.raw@ == older.raw@ && (newer.lsn <= safe_lsn || newer.lsn == older.lsn)
}

/// The versions that a reader at `safe_lsn` or later can see: of each key every version
/// that is newer than `safe_lsn`, and the newest of the others. Of versions with the same
/// sequence number the newest one is kept.
pub open spec fn needed_versions(items: Seq<(Key, Value)>, safe_lsn: u64) -> Seq<(Key, Value)>
    decreases items.len(),
{
    if items.len() == 0 {
        items
    } else {
        let rest = needed_versions(items.drop_last(), safe_lsn);
        let last = items.last();
        if rest.len() > 0 && is_covered(rest.last().0, last.0, safe_lsn) {
            rest
        } else {
            rest.push(last)
        }
    }
}

/// Drops the versions that no reader at `safe_lsn` or later can see.
pub fn drop_old_versions(items: Vec<(Key, Value)>, safe_lsn: u64) -> (r: Vec<(Key, Value)>)
    ensures
        r@ == needed_versions(items@, safe_lsn),
{
    let ghost all = items@;
    let mut left = reversed(items);
    let mut r: Vec<(Key, Value)> = Vec::new();
    let ghost mut n: int = 0;
    assert(all.skip(0) =~= all);
    assert(all.take(0) =~= Seq::<(Key, Value)>::empty());
    assert(r@ =~= needed_versions(all.take(0), safe_lsn));
    while left.len() > 0
        invariant
            0 <= n <= all.len(),
            left@ == all.skip(n).reverse(),
            r@ == needed_versions(all.take(n), safe_lsn),
        decreases left@.len(),
    {
        let ghost before = left@;
        match left.pop() {
            Some(item) => {
                proof {
                    assert(before.last() == all[n]);
                    assert(all.take(n + 1).drop_last() =~= all.take(n));
                    assert(left@ =~= all.skip(n + 1).reverse());
                    n = n + 1;
                }
                let count: usize = r.len();
                let covered: bool = count > 0 && bytes_same(
                    r[count - 1].0.raw.as_slice(),
                    item.0.raw.as_slice(),
                ) && (r[count - 1].0.lsn <= safe_lsn || r[count - 1].0.lsn == item.0.lsn);
                if !covered {
                    r.push(item);
                }
            },
            None => {},
        }
    }
    assert(all.take(all.len() as int) =~= all);
    r
}

/// The references to children: of each key the newest one, placeholders left out.
pub open spec fn live_children(items: Seq<(Vec<u8>, Index)>) -> Seq<(Vec<u8>, Index)>
    decreases items.len(),
{
    if items.len() == 0 {
        items
    } else {
        let rest = live_children(items.drop_last());
        let last = items.last();
        if last.1 == null_index() || (rest.len() > 0 && rest.last().0@ == last.0@) {
            rest
        } else {
            rest.push(last)
        }
    }
}

/// Drops placeholders, and references that newer ones have replaced.
pub fn drop_dead_children(items: Vec<(Vec<u8>, Index)>) -> (r: Vec<(Vec<u8>, Index)>)
    ensures
        r@ == live_children(items@),
{
    let ghost all = items@;
    let mut left = reversed(items);
    let mut r: Vec<(Vec<u8>, Index)> = Vec::new();
    let ghost mut n: int = 0;
    assert(all.skip(0) =~= all);
    assert(all.take(0) =~= Seq::<(Vec<u8>, Index)>::empty());
    assert(r@ =~= live_children(all.take(0)));
    while left.len() > 0
        invariant
            0 <= n <= all.len(),
            left@ == all.skip(n).reverse(),
            r@ == live_children(all.take(n)),
        decreases left@.len(),
    {
        let ghost before = left@;
        match left.pop() {
            Some(item) => {
                proof {
                    assert(before.last() == all[n]);
                    assert(all.take(n + 1).drop_last() =~= all.take(n));
                    assert(left@ =~= all.skip(n + 1).reverse());
                    n = n + 1;
                }
                let count: usize = r.len();
                let dead: bool = item.1 == (Index { id: NAN_ID, epoch: 0 }) || (count > 0
                    && bytes_same(r[count - 1].0.as_slice(), item.0.as_slice()));
                if !dead {
                    r.push(item);
                }
            },
            None => {},
        }
    }
    assert(all.take(all.len() as int) =~= all);
    r
}

/// The first of the items up to `i` that have the same key as the item at `i`, all in
/// a row.
pub open spec fn run_start(items: Items, i: int) -> int
    decreases i,
{
    if i <= 0 || items.raw(i - 1) != items.raw(i) {
        i
    } else {
        run_start(items, i - 1)
    }
}

/// Where a page divides: at the first version of the key in the middle. A page in which
/// nothing comes before that does not divide.
pub open spec fn split_index(items: Items) -> Option<int> {
    if items.count() == 0 {
        None
    } else {
        let i = run_start(items, (items.count() / 2) as int);
        if i > 0 {
            Some(i)
        } else {
            None
        }
    }
}

/// `part` holds the items from `from` up to `to`.
pub open spec fn is_part(part: Items, items: Items, from: int, to: int) -> bool {
    match (part, items) {
        (Items::Values(p), Items::Values(v)) => p@ == v@.subrange(from, to),
        (Items::Indexes(p), Items::Indexes(v)) => p@ == v@.subrange(from, to),
        _ => false,
    }
}

fn same_raw(items: &Items, i: usize, j: usize) -> (r: bool)
    requires
        i < items.count(),
        j < items.count(),
    ensures
        r == (items.raw(i as int) == items.raw(j as int)),
{
    match items {
        Items::Values(v) => bytes_same(v[i].0.raw.as_slice(), v[j].0.raw.as_slice()),
        Items::Indexes(v) => bytes_same(v[i].0.as_slice(), v[j].0.as_slice()),
    }
}

/// Divides the contents of a page in two halves: the first key of the right half, the
/// left half and the right half.
pub fn split_items(items: Items) -> (r: Option<(Vec<u8>, Items, Items)>)
    ensures
        match (r, split_index(items)) {
            (Some((split_key, left, right)), Some(i)) => {
                &&& split_key@ == items.raw(i)
                &&& is_part(left, items, 0, i)
                &&& is_part(right, items, i, items.count() as int)
            },
            (None, None) => true,
            _ => false,
        },
        match r {
            Some((split_key, left, right)) => {
                &&& joins(left, right, items)
                &&& is_first_of_the_middle(items, left.count() as int)
                &&& split_key@ == items.raw(left.count() as int)
            },
            None => items.count() == 0 || has_one_key_up_to_the_middle(items),
        },
{
    proof {
        law_page_divides_in_the_middle(items);
    }
    let count: usize = match &items {
        Items::Values(v) => v.len(),
        Items::Indexes(v) => v.len(),
    };
    if count == 0 {
        return None;
    }
    let mut i: usize = count / 2;
    while i > 0 && same_raw(&items, i - 1, i)
        invariant
            i < count,
            count == items.count(),
            run_start(items, i as int) == run_start(items, (count / 2) as int),
        decreases i,
    {
        i = i - 1;
    }
    if i == 0 {
        return None;
    }
    match items {
        Items::Values(v) => {
            let mut left = v;
            let split_key = bytes_copy(left[i].0.raw.as_slice());
            let right = left.split_off(i);
            assert(left@ + right@ =~= v@);
            Some((split_key, Items::Values(left), Items::Values(right)))
        },
        Items::Indexes(v) => {
            let mut left = v;
            let split_key = bytes_copy(left[i].0.as_slice());
            let right = left.split_off(i);
            assert(left@ + right@ =~= v@);
            Some((split_key, Items::Indexes(left), Items::Indexes(right)))
        },
    }
}

} // verus!
