//! What the two halves of a page hold.

use crate::bytes::{bytes_le, bytes_lt, lemma_bytes_irreflexive, lemma_bytes_le_lt,
    lemma_bytes_order};
use crate::laws::delta::lemma_page_child;
use crate::lookup::{is_cover, is_visible, item_range, lemma_visible_value, page_child, page_value,
    visible_value};
use crate::merge::{is_part, run_start, split_index};
use crate::page::{position_lt, sorted, Index, Items, Key, Page, RangeView, SortedPageKey, Value};
use vstd::prelude::*;

verus! {

proof fn lemma_run_start(items: Items, i: int)
    requires
        0 <= i < items.count(),
    ensures
        ({
            let s = run_start(items, i);
            &&& 0 <= s <= i
            &&& items.raw(s) == items.raw(i)
            &&& s > 0 ==> items.raw(s - 1) != items.raw(s)
        }),
    decreases i,
{
    if i > 0 && items.raw(i - 1) == items.raw(i) {
        lemma_run_start(items, i - 1);
    }
}

/// In a page in order the bytes of the keys do not decrease.
pub proof fn lemma_raw_order(items: Items, i: int, j: int)
    requires
        items.sorted(),
        0 <= i < j < items.count(),
    ensures
        bytes_le(items.raw(i), items.raw(j)),
{
    match items {
        Items::Values(v) => {
            assert(position_lt(v@[i].0.position(), v@[j].0.position()));
        },
        Items::Indexes(v) => {
            assert(position_lt(v@[i].0.position(), v@[j].0.position()));
        },
    }
}

/// A page parts at a key of its own: what comes before it stays on the left, what does not
/// goes to the right, and neither half is empty.
pub proof fn law_halves_part_at_the_key(items: Items, i: int, k: int)
    requires
        items.sorted(),
        split_index(items) == Some(i),
        0 <= k < items.count(),
    ensures
        0 < i < items.count(),
        k < i <==> bytes_lt(items.raw(k), items.raw(i)),
{
    lemma_run_start(items, (items.count() / 2) as int);
    lemma_raw_order(items, i - 1, i);
    lemma_bytes_irreflexive(items.raw(i));
    lemma_bytes_order(items.raw(i), items.raw(k));
    if k < i - 1 {
        lemma_raw_order(items, k, i - 1);
        lemma_bytes_le_lt(items.raw(k), items.raw(i - 1), items.raw(i));
    } else if k > i {
        lemma_raw_order(items, i, k);
    }
}

/// The key at which a page parts is not the empty one.
pub proof fn law_split_key_is_not_empty(items: Items, i: int)
    requires
        items.sorted(),
        split_index(items) == Some(i),
    ensures
        items.raw(i).len() > 0,
{
    law_halves_part_at_the_key(items, i, 0);
    assert(items.count() > 0);
}

proof fn lemma_visible_in_part(
    items: Seq<(Key, Value)>,
    from: int,
    to: int,
    raw: Seq<u8>,
    lsn: u64,
)
    requires
        sorted(items),
        0 <= from <= to <= items.len(),
        forall|k: int|
            0 <= k < items.len() && (#[trigger] items[k]).0.raw@ == raw ==> from <= k < to,
    ensures
        sorted(items.subrange(from, to)),
        visible_value(items.subrange(from, to), raw, lsn) == visible_value(items, raw, lsn),
{
    let part = items.subrange(from, to);
    assert forall|i: int, j: int| 0 <= i < j < part.len() implies position_lt(
        #[trigger] part[i].0.position(),
        #[trigger] part[j].0.position(),
    ) by {
        assert(position_lt(items[from + i].0.position(), items[from + j].0.position()));
    }
    if exists|k: int| is_visible(items, raw, lsn, k) {
        let k = choose|k: int| is_visible(items, raw, lsn, k);
        assert(items[k].0.raw@ == raw);
        assert(is_visible(part, raw, lsn, k - from)) by {
            assert(part[k - from] == items[k]);
            assert forall|j: int|
                0 <= j < part.len() && (#[trigger] part[j]).0.raw@ == raw && part[j].0.lsn
                    <= lsn implies part[j].0.lsn <= part[k - from].0.lsn by {
                assert(items[from + j] == part[j]);
            }
        }
        lemma_visible_value(items, raw, lsn, k);
        lemma_visible_value(part, raw, lsn, k - from);
    } else {
        assert forall|j: int| !is_visible(part, raw, lsn, j) by {
            if is_visible(part, raw, lsn, j) {
                assert(is_visible(items, raw, lsn, from + j)) by {
                    assert(items[from + j] == part[j]);
                    assert forall|k: int|
                        0 <= k < items.len() && (#[trigger] items[k]).0.raw@ == raw
                            && items[k].0.lsn <= lsn implies items[k].0.lsn <= items[from
                        + j].0.lsn by {
                        assert(part[k - from] == items[k]);
                    }
                }
            }
        }
    }
}

pub proof fn lemma_part_sorted<K: SortedPageKey, V>(items: Seq<(K, V)>, from: int, to: int)
    requires
        sorted(items),
        0 <= from <= to <= items.len(),
    ensures
        sorted(items.subrange(from, to)),
{
    let part = items.subrange(from, to);
    assert forall|i: int, j: int| 0 <= i < j < part.len() implies position_lt(
        #[trigger] part[i].0.position(),
        #[trigger] part[j].0.position(),
    ) by {
        assert(position_lt(items[from + i].0.position(), items[from + j].0.position()));
    }
}

/// The right half says of the keys from the split key on what the whole page said.
pub proof fn law_right_half_says_the_same(
    page: Page,
    right: Page,
    i: int,
    raw: Seq<u8>,
    lsn: u64,
)
    requires
        page.wf(),
        page.info.kind is Data,
        split_index(page.items) == Some(i),
        right.info.kind is Data,
        is_part(right.items, page.items, i, page.items.count() as int),
        bytes_le(page.items.raw(i), raw),
    ensures
        right.items.sorted(),
        page_value(right, raw, lsn) == page_value(page, raw, lsn),
        page_child(right, raw) == page_child(page, raw),
{
    let split_key = page.items.raw(i);
    let n = page.items.count() as int;
    law_halves_part_at_the_key(page.items, i, 0);
    match page.items {
        Items::Values(v) => {
            assert forall|k: int|
                0 <= k < v@.len() && (#[trigger] v@[k]).0.raw@ == raw implies i <= k < n by {
                law_halves_part_at_the_key(page.items, i, k);
                lemma_bytes_order(split_key, raw);
            }
            lemma_visible_in_part(v@, i, n, raw, lsn);
        },
        Items::Indexes(v) => {
            let all = v@;
            let part = right.items->Indexes_0@;
            lemma_part_sorted(all, i, n);
            assert(exists|k: int| is_cover(all, raw, k) && k >= i) by {
                lemma_cover_exists(all, i, raw);
            }
            let k = choose|k: int| is_cover(all, raw, k) && k >= i;
            assert(is_cover(part, raw, k - i)) by {
                assert(part[k - i] == all[k]);
                if k + 1 < n {
                    assert(part[k - i + 1] == all[k + 1]);
                }
            }
            lemma_page_child(page, raw, k);
            lemma_page_child(right, raw, k - i);
            assert(item_range(part, k - i) == item_range(all, k));
        },
    }
}

/// From an item that is not after the key on, some item covers the key.
pub proof fn lemma_cover_exists(items: Seq<(Vec<u8>, Index)>, i: int, raw: Seq<u8>)
    requires
        sorted(items),
        0 <= i < items.len(),
        bytes_le(items[i].0@, raw),
    ensures
        exists|k: int| is_cover(items, raw, k) && k >= i,
    decreases items.len() - i,
{
    if i + 1 < items.len() && !bytes_lt(raw, items[i + 1].0@) {
        lemma_bytes_order(items[i + 1].0@, raw);
        lemma_cover_exists(items, i + 1, raw);
        let k = choose|k: int| is_cover(items, raw, k) && k >= i + 1;
        assert(is_cover(items, raw, k) && k >= i);
    } else {
        assert(is_cover(items, raw, i) && i >= i);
    }
}

/// Two pages name the same child for a key, and the child begins at the same key.
pub open spec fn same_child(
    a: Option<(Index, RangeView)>,
    b: Option<(Index, RangeView)>,
) -> bool {
    match (a, b) {
        (Some(x), Some(y)) => x.0 == y.0 && x.1.start == y.1.start,
        (None, None) => true,
        _ => false,
    }
}

/// The left half says of the keys before the split key what the whole page said.
pub proof fn law_left_half_says_the_same(page: Page, left: Page, i: int, raw: Seq<u8>, lsn: u64)
    requires
        page.wf(),
        page.info.kind is Data,
        split_index(page.items) == Some(i),
        left.info.kind is Data,
        is_part(left.items, page.items, 0, i),
        bytes_lt(raw, page.items.raw(i)),
    ensures
        left.items.sorted(),
        page_value(left, raw, lsn) == page_value(page, raw, lsn),
        same_child(page_child(left, raw), page_child(page, raw)),
{
    let split_key = page.items.raw(i);
    law_halves_part_at_the_key(page.items, i, 0);
    match page.items {
        Items::Values(v) => {
            assert forall|k: int|
                0 <= k < v@.len() && (#[trigger] v@[k]).0.raw@ == raw implies 0 <= k < i by {
                law_halves_part_at_the_key(page.items, i, k);
            }
            lemma_visible_in_part(v@, 0, i, raw, lsn);
        },
        Items::Indexes(v) => {
            let all = v@;
            let part = left.items->Indexes_0@;
            lemma_part_sorted(all, 0, i);
            if exists|k: int| is_cover(all, raw, k) {
                let k = choose|k: int| is_cover(all, raw, k);
                law_halves_part_at_the_key(page.items, i, k);
                lemma_bytes_le_lt(all[k].0@, raw, split_key);
                assert(k < i);
                assert(is_cover(part, raw, k)) by {
                    assert(part[k] == all[k]);
                    if k + 1 < i {
                        assert(part[k + 1] == all[k + 1]);
                    }
                }
                lemma_page_child(page, raw, k);
                lemma_page_child(left, raw, k);
            } else {
                assert forall|k: int| !is_cover(part, raw, k) by {
                    if is_cover(part, raw, k) {
                        assert(part[k] == all[k]);
                        lemma_cover_exists(all, k, raw);
                    }
                }
            }
        },
    }
}

} // verus!
