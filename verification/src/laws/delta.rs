//! What a page that is put in front of a chain changes.

use crate::bytes::{bytes_le, bytes_lt, lemma_bytes_le_lt, lemma_bytes_order};
use crate::lookup::{find_child, find_value, is_cover, is_visible, item_range, lemma_cover_unique,
    lemma_visible_value, page_child, page_value, visible_value};
use crate::page::{null_index, position_lt, sorted, Draft, Index, Items, Key, Page, RangeView,
    SortedPageKey, Value};
use crate::reconcile::is_reconcile_delta;
use crate::split::{is_root_draft, is_split_draft};
use crate::write::is_write_draft;
use vstd::prelude::*;

verus! {

/// The draft from which the page was built.
pub open spec fn draft_of(page: Page) -> Draft {
    Draft { tier: page.info.tier, kind: page.info.kind, items: page.items }
}

/// Putting a page in front of a chain puts its answer before that of the chain.
pub proof fn lemma_find_value_front(page: Page, chain: Seq<Page>, raw: Seq<u8>, lsn: u64)
    ensures
        find_value(seq![page] + chain, raw, lsn) == match page_value(page, raw, lsn) {
            Some(value) => value,
            None => find_value(chain, raw, lsn),
        },
{
    assert((seq![page] + chain).drop_first() =~= chain);
}

pub proof fn lemma_find_child_front(page: Page, chain: Seq<Page>, raw: Seq<u8>)
    ensures
        find_child(seq![page] + chain, raw) == match page_child(page, raw) {
            Some(child) => Some(child),
            None => find_child(chain, raw),
        },
{
    assert((seq![page] + chain).drop_first() =~= chain);
}

/// Once the page of a write is in front of the chain, readers at the write or later get
/// what was written; every other read gets what it got before.
pub proof fn law_write_is_read(
    chain: Seq<Page>,
    delta: Page,
    key: Key,
    value: Value,
    raw: Seq<u8>,
    lsn: u64,
)
    requires
        is_write_draft(draft_of(delta), key, value),
    ensures
        find_value(seq![delta] + chain, raw, lsn) == if raw == key.raw@ && lsn >= key.lsn {
            value.content()
        } else {
            find_value(chain, raw, lsn)
        },
{
    lemma_find_value_front(delta, chain, raw, lsn);
    let items = delta.items->Values_0@;
    if raw == key.raw@ && lsn >= key.lsn {
        assert(is_visible(items, raw, lsn, 0));
        lemma_visible_value(items, raw, lsn, 0);
    } else {
        assert(visible_value(items, raw, lsn) is None);
    }
}

/// A page that announces a split leaves every read of its chain as it was.
pub proof fn law_split_delta_is_silent(
    chain: Seq<Page>,
    delta: Page,
    split_key: Seq<u8>,
    right_id: u64,
    raw: Seq<u8>,
    lsn: u64,
)
    requires
        is_split_draft(draft_of(delta), delta.info.tier, split_key, right_id),
    ensures
        find_value(seq![delta] + chain, raw, lsn) == find_value(chain, raw, lsn),
        find_child(seq![delta] + chain, raw) == find_child(chain, raw),
{
    lemma_find_value_front(delta, chain, raw, lsn);
    lemma_find_child_front(delta, chain, raw);
}

/// Naming the covering item settles which child the page names.
pub proof fn lemma_page_child(page: Page, raw: Seq<u8>, i: int)
    requires
        page.info.kind is Data,
        page.items matches Items::Indexes(items) && sorted(items@) && is_cover(items@, raw, i),
    ensures
        ({
            let items = page.items->Indexes_0@;
            page_child(page, raw) == if items[i].1 == null_index() {
                None
            } else {
                Some((items[i].1, item_range(items, i)))
            }
        }),
{
    let items = page.items->Indexes_0@;
    let j = choose|j: int| is_cover(items, raw, j);
    lemma_cover_unique(items, raw, i, j);
}

/// Once the page of a reconciliation is in front of the parent's chain, the keys of the
/// split page's range go to its two halves; every other key goes where it went before, and so
/// do the keys of a half that has no page.
pub proof fn law_reconcile_redirects(
    chain: Seq<Page>,
    delta: Page,
    range: RangeView,
    left: Index,
    split_key: Seq<u8>,
    right: Index,
    raw: Seq<u8>,
)
    requires
        delta.info.kind is Data,
        delta.items matches Items::Indexes(v) && is_reconcile_delta(
            v@,
            range,
            left,
            split_key,
            right,
        ),
        bytes_lt(range.start, split_key),
        range.end matches Some(end) ==> bytes_lt(split_key, end),
    ensures
        find_child(seq![delta] + chain, raw) == if !range.contains(raw) {
            find_child(chain, raw)
        } else if bytes_lt(raw, split_key) {
            if left == null_index() {
                find_child(chain, raw)
            } else {
                Some((left, RangeView { start: range.start, end: Some(split_key) }))
            }
        } else if right == null_index() {
            find_child(chain, raw)
        } else {
            Some((right, RangeView { start: split_key, end: range.end }))
        },
{
    let items = delta.items->Indexes_0@;
    lemma_find_child_front(delta, chain, raw);
    lemma_reconcile_delta_sorted(items, range, left, split_key, right);
    lemma_bytes_order(range.start, raw);
    lemma_bytes_order(split_key, raw);
    match range.end {
        Some(end) => {
            lemma_bytes_order(end, raw);
            if bytes_le(end, raw) {
                assert(is_cover(items, raw, 2));
                lemma_page_child(delta, raw, 2);
            }
        },
        None => {},
    }
    if bytes_lt(raw, range.start) {
        assert forall|i: int| !is_cover(items, raw, i) by {
            if is_cover(items, raw, i) {
                if i > 0 {
                    assert(position_lt(items[0].0.position(), items[i].0.position()));
                }
                lemma_bytes_le_lt(range.start, items[i].0@, raw);
            }
        }
    }
    if range.contains(raw) {
        if bytes_lt(raw, split_key) {
            assert(is_cover(items, raw, 0));
            lemma_page_child(delta, raw, 0);
        } else {
            assert(is_cover(items, raw, 1));
            lemma_page_child(delta, raw, 1);
        }
    }
}

pub proof fn lemma_reconcile_delta_sorted(
    items: Seq<(Vec<u8>, Index)>,
    range: RangeView,
    left: Index,
    split_key: Seq<u8>,
    right: Index,
)
    requires
        is_reconcile_delta(items, range, left, split_key, right),
        bytes_lt(range.start, split_key),
        range.end matches Some(end) ==> bytes_lt(split_key, end),
    ensures
        sorted(items),
{
    match range.end {
        Some(end) => {
            lemma_bytes_le_lt(range.start, split_key, end);
        },
        None => {},
    }
    assert forall|i: int, j: int| 0 <= i < j < items.len() implies position_lt(
        #[trigger] items[i].0.position(),
        #[trigger] items[j].0.position(),
    ) by {
        if i == 0 && j == 1 {
        } else if i == 0 && j == 2 {
        } else {
            assert(i == 1 && j == 2);
        }
    }
}

/// Once the root has been split, every key goes to one of the two halves.
pub proof fn law_root_split_redirects(
    root: Page,
    left_id: u64,
    split_key: Seq<u8>,
    right_id: u64,
    raw: Seq<u8>,
)
    requires
        is_root_draft(draft_of(root), left_id, split_key, right_id),
        split_key.len() > 0,
        left_id != null_index().id,
        right_id != null_index().id,
    ensures
        find_child(seq![root], raw) == if bytes_lt(raw, split_key) {
            Some(
                (
                    Index { id: left_id, epoch: 0 },
                    RangeView { start: Seq::empty(), end: Some(split_key) },
                ),
            )
        } else {
            Some((Index { id: right_id, epoch: 0 }, RangeView { start: split_key, end: None }))
        },
{
    let items = root.items->Indexes_0@;
    assert(seq![root] =~= seq![root] + Seq::<Page>::empty());
    lemma_find_child_front(root, Seq::empty(), raw);
    assert(sorted(items)) by {
        assert forall|i: int, j: int| 0 <= i < j < items.len() implies position_lt(
            #[trigger] items[i].0.position(),
            #[trigger] items[j].0.position(),
        ) by {
            assert(i == 0 && j == 1);
        }
    }
    lemma_bytes_order(split_key, raw);
    if raw.len() == 0 {
        assert(raw =~= Seq::<u8>::empty());
    }
    if bytes_lt(raw, split_key) {
        assert(is_cover(items, raw, 0));
        lemma_page_child(root, raw, 0);
    } else {
        assert(is_cover(items, raw, 1));
        lemma_page_child(root, raw, 1);
    }
}

} // verus!
