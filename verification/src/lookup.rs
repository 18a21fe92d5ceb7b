//! Searching for a key in a page and along a chain of pages.

use crate::bytes::{bytes_copy, bytes_same};
use crate::bytes::{bytes_le, bytes_lt, lemma_bytes_irreflexive, lemma_bytes_le_lt,
    lemma_bytes_order};
use crate::page::{null_index, position_lt, sorted};
use crate::page::{rank, Index, Items, Key, Page, Range, RangeView, SortedPageKey, Value, NAN_ID};
use vstd::prelude::*;

verus! {

/// The item at `i` is the newest version of the key that is no newer than `lsn`.
pub open spec fn is_visible(items: Seq<(Key, Value)>, raw: Seq<u8>, lsn: u64, i: int) -> bool {
    &&& 0 <= i < items.len()
    &&& items[i].0.raw@ == raw
    &&& items[i].0.lsn <= lsn
    &&& forall|j: int|
        0 <= j < items.len() && (#[trigger] items[j]).0.raw@ == raw && items[j].0.lsn <= lsn
            ==> items[j].0.lsn <= items[i].0.lsn
}

/// What the newest version of the key that is no newer than `lsn` holds.
pub open spec fn visible_value(items: Seq<(Key, Value)>, raw: Seq<u8>, lsn: u64) -> Option<
    Value,
> {
    if exists|i: int| is_visible(items, raw, lsn, i) {
        Some(items[choose|i: int| is_visible(items, raw, lsn, i)].1)
    } else {
        None
    }
}

/// The item is a version of the key that is no newer than `lsn`.
pub open spec fn is_match(x: (Key, Value), raw: Seq<u8>, lsn: u64) -> bool {
    x.0.raw@ == raw && x.0.lsn <= lsn
}

/// The first of the items that is a version of the key that is no newer than `lsn`. Where
/// versions come newest first, it is the one that a reader gets.
pub open spec fn first_version(items: Seq<(Key, Value)>, raw: Seq<u8>, lsn: u64) -> Option<
    (Key, Value),
>
    decreases items.len(),
{
    if items.len() == 0 {
        None
    } else {
        match first_version(items.drop_last(), raw, lsn) {
            Some(x) => Some(x),
            None => if is_match(items.last(), raw, lsn) {
                Some(items.last())
            } else {
                None
            },
        }
    }
}

/// The bytes that a reader of the key gets from the items, if any.
pub open spec fn shown(items: Seq<(Key, Value)>, raw: Seq<u8>, lsn: u64) -> Option<Seq<u8>> {
    match first_version(items, raw, lsn) {
        Some(version) => version.1.content(),
        None => None,
    }
}

/// What a page says of a key: nothing, or what a reader of the key gets.
pub open spec fn page_value(page: Page, raw: Seq<u8>, lsn: u64) -> Option<Option<Seq<u8>>> {
    match page.items {
        Items::Values(items) => match visible_value(items@, raw, lsn) {
            Some(value) => Some(value.content()),
            None => None,
        },
        Items::Indexes(_) => None,
    }
}

/// What a reader of the key gets from a chain of pages, newest first: what the first
/// page says that says anything.
pub open spec fn find_value(chain: Seq<Page>, raw: Seq<u8>, lsn: u64) -> Option<Seq<u8>>
    decreases chain.len(),
{
    if chain.len() == 0 {
        None
    } else {
        match page_value(chain[0], raw, lsn) {
            Some(value) => value,
            None => find_value(chain.drop_first(), raw, lsn),
        }
    }
}

/// In a page in order at most one item is visible.
pub proof fn lemma_visible_unique(
    items: Seq<(Key, Value)>,
    raw: Seq<u8>,
    lsn: u64,
    i: int,
    j: int,
)
    requires
        sorted(items),
        is_visible(items, raw, lsn, i),
        is_visible(items, raw, lsn, j),
    ensures
        i == j,
{
    lemma_bytes_irreflexive(raw);
    if i < j {
        assert(position_lt(items[i].0.position(), items[j].0.position()));
    }
    if j < i {
        assert(position_lt(items[j].0.position(), items[i].0.position()));
    }
}

/// Naming the visible item settles what the page says.
pub proof fn lemma_visible_value(items: Seq<(Key, Value)>, raw: Seq<u8>, lsn: u64, i: int)
    requires
        sorted(items),
        is_visible(items, raw, lsn, i),
    ensures
        visible_value(items, raw, lsn) == Some(items[i].1),
{
    let j = choose|j: int| is_visible(items, raw, lsn, j);
    lemma_visible_unique(items, raw, lsn, i, j);
}

/// Finds what a page says of a key.
pub fn value_in_page(page: &Page, key: &Key) -> (r: Option<Option<Vec<u8>>>)
    requires
        page.wf(),
    ensures
        match r {
            Some(Some(v)) => page_value(*page, key.raw@, key.lsn) == Some(Some(v@)),
            Some(None) => page_value(*page, key.raw@, key.lsn) == Some(None::<Seq<u8>>),
            None => page_value(*page, key.raw@, key.lsn) is None,
        },
{
    match &page.items {
        Items::Values(items) => {
            let index: usize = match rank(items, key.raw.as_slice(), key.lsn) {
                Ok(i) => i,
                Err(i) => i,
            };
            if index < items.len() && bytes_same(
                items[index].0.raw.as_slice(),
                key.raw.as_slice(),
            ) {
                proof {
                    lemma_rank_is_visible(items@, key.raw@, key.lsn, index as int);
                    lemma_visible_value(items@, key.raw@, key.lsn, index as int);
                }
                match &items[index].1 {
                    Value::Put(v) => Some(Some(bytes_copy(v.as_slice()))),
                    Value::Delete => Some(None),
                }
            } else {
                proof {
                    lemma_rank_none_visible(items@, key.raw@, key.lsn, index as int);
                }
                None
            }
        },
        Items::Indexes(_) => None,
    }
}

proof fn lemma_rank_is_visible(items: Seq<(Key, Value)>, raw: Seq<u8>, lsn: u64, index: int)
    requires
        sorted(items),
        0 <= index < items.len(),
        items[index].0.raw@ == raw,
        forall|j: int|
            0 <= j < items.len() ==> (j < index <==> position_lt(
                #[trigger] items[j].0.position(),
                (raw, lsn),
            )),
    ensures
        is_visible(items, raw, lsn, index),
{
    lemma_bytes_irreflexive(raw);
    assert(!position_lt(items[index].0.position(), (raw, lsn)));
    assert forall|j: int|
        0 <= j < items.len() && (#[trigger] items[j]).0.raw@ == raw && items[j].0.lsn
            <= lsn implies items[j].0.lsn <= items[index].0.lsn by {
        assert(!position_lt(items[j].0.position(), (raw, lsn)));
        if index < j {
            assert(position_lt(items[index].0.position(), items[j].0.position()));
        }
    }
}

proof fn lemma_rank_none_visible(items: Seq<(Key, Value)>, raw: Seq<u8>, lsn: u64, index: int)
    requires
        sorted(items),
        0 <= index <= items.len(),
        index < items.len() ==> items[index].0.raw@ != raw,
        forall|j: int|
            0 <= j < items.len() ==> (j < index <==> position_lt(
                #[trigger] items[j].0.position(),
                (raw, lsn),
            )),
    ensures
        visible_value(items, raw, lsn) is None,
{
    assert forall|i: int| !is_visible(items, raw, lsn, i) by {
        if is_visible(items, raw, lsn, i) {
            lemma_bytes_irreflexive(raw);
            assert(!position_lt(items[i].0.position(), (raw, lsn)));
            assert(index < i);
            assert(!position_lt(items[index].0.position(), (raw, lsn)));
            assert(position_lt(items[index].0.position(), items[i].0.position()));
            lemma_bytes_order(items[index].0.raw@, raw);
        }
    }
}

/// The item at `i` is the last one whose key is not after `raw`.
pub open spec fn is_cover(items: Seq<(Vec<u8>, Index)>, raw: Seq<u8>, i: int) -> bool {
    &&& 0 <= i < items.len()
    &&& bytes_le(items[i].0@, raw)
    &&& i + 1 < items.len() ==> bytes_lt(raw, items[i + 1].0@)
}

/// The child that a page names for a key, with the range of keys that it is named for.
pub open spec fn page_child(page: Page, raw: Seq<u8>) -> Option<(Index, RangeView)> {
    match page.items {
        Items::Indexes(items) => if page.info.kind is Data && exists|i: int|
            is_cover(items@, raw, i) {
            let i = choose|i: int| is_cover(items@, raw, i);
            if items@[i].1 == null_index() {
                None
            } else {
                Some((items@[i].1, item_range(items@, i)))
            }
        } else {
            None
        },
        Items::Values(_) => None,
    }
}

/// The range from the key at `i` to the next key.
pub open spec fn item_range(items: Seq<(Vec<u8>, Index)>, i: int) -> RangeView {
    RangeView {
        start: items[i].0@,
        end: if i + 1 < items.len() {
            Some(items[i + 1].0@)
        } else {
            None
        },
    }
}

/// The child that a chain of pages, newest first, names for a key: the one that the
/// first page names that names any.
pub open spec fn find_child(chain: Seq<Page>, raw: Seq<u8>) -> Option<(Index, RangeView)>
    decreases chain.len(),
{
    if chain.len() == 0 {
        None
    } else {
        match page_child(chain[0], raw) {
            Some(child) => Some(child),
            None => find_child(chain.drop_first(), raw),
        }
    }
}

/// In a page in order at most one item covers a key.
pub proof fn lemma_cover_unique(items: Seq<(Vec<u8>, Index)>, raw: Seq<u8>, i: int, j: int)
    requires
        sorted(items),
        is_cover(items, raw, i),
        is_cover(items, raw, j),
    ensures
        i == j,
{
    if i < j {
        lemma_cover_order(items, raw, i, j);
    }
    if j < i {
        lemma_cover_order(items, raw, j, i);
    }
}

proof fn lemma_cover_order(items: Seq<(Vec<u8>, Index)>, raw: Seq<u8>, i: int, j: int)
    requires
        sorted(items),
        is_cover(items, raw, i),
        i < j < items.len(),
    ensures
        !bytes_le(items[j].0@, raw),
{
    if i + 1 < j {
        assert(position_lt(items[i + 1].0.position(), items[j].0.position()));
    }
    lemma_bytes_le_lt(raw, items[i + 1].0@, items[j].0@);
    lemma_bytes_order(raw, items[j].0@);
}

/// Finds the child that a page names for a key.
pub fn child_in_page(page: &Page, raw: &[u8]) -> (r: Option<(Index, Range)>)
    requires
        page.wf(),
    ensures
        match r {
            Some((index, range)) => page_child(*page, raw@) == Some((index, range@)),
            None => page_child(*page, raw@) is None,
        },
{
    if !page.info.kind.is_data() {
        return None;
    }
    match &page.items {
        Items::Indexes(items) => {
            let count: usize = items.len();
            // The two items that enclose the key are the ones at `end - 1` and at `end`.
            let end: usize = match rank(items, raw, 0) {
                Ok(i) => i + 1,
                Err(i) => i,
            };
            proof {
                lemma_enclose(items@, raw@, end as int);
            }
            if end == 0 {
                return None;
            }
            let ghost cover = choose|i: int| is_cover(items@, raw@, i);
            proof {
                lemma_cover_unique(items@, raw@, cover, end - 1);
            }
            let index: Index = items[end - 1].1;
            if index == (Index { id: NAN_ID, epoch: 0 }) {
                return None;
            }
            let start = bytes_copy(items[end - 1].0.as_slice());
            let range = if end < count {
                Range { start, end: Some(bytes_copy(items[end].0.as_slice())) }
            } else {
                Range { start, end: None }
            };
            Some((index, range))
        },
        Items::Values(_) => None,
    }
}

proof fn lemma_enclose(items: Seq<(Vec<u8>, Index)>, raw: Seq<u8>, end: int)
    requires
        sorted(items),
        0 <= end <= items.len(),
        ({
            ||| {
                &&& 0 < end
                &&& items[end - 1].0.position() == (raw, 0u64)
            }
            ||| {
                &&& forall|j: int|
                    0 <= j < items.len() ==> (j < end <==> position_lt(
                        #[trigger] items[j].0.position(),
                        (raw, 0u64),
                    ))
                &&& forall|j: int|
                    0 <= j < items.len() ==> (#[trigger] items[j]).0.position() != (raw, 0u64)
            }
        }),
    ensures
        end > 0 ==> is_cover(items, raw, end - 1),
        end == 0 ==> forall|i: int| !is_cover(items, raw, i),
{
    if end > 0 {
        if items[end - 1].0.position() == (raw, 0u64) {
            if end < items.len() {
                assert(position_lt(items[end - 1].0.position(), items[end].0.position()));
            }
        } else {
            assert(position_lt(items[end - 1].0.position(), (raw, 0u64)));
            if end < items.len() {
                assert(!position_lt(items[end].0.position(), (raw, 0u64)));
                assert(items[end].0.position() != (raw, 0u64));
                lemma_bytes_order(raw, items[end].0@);
            }
        }
    } else {
        assert forall|i: int| !is_cover(items, raw, i) by {
            if is_cover(items, raw, i) {
                assert(!position_lt(items[i].0.position(), (raw, 0u64)));
                assert(items[i].0.position() != (raw, 0u64));
            }
        }
    }
}

/// The reference that a page announces which has been split: the first key of the new
/// page, and the new page.
pub open spec fn split_delta(page: Page) -> (Seq<u8>, Index) {
    match page.items {
        Items::Indexes(items) => (items@[0].0@, items@[0].1),
        Items::Values(_) => arbitrary(),
    }
}

/// The page announces a split.
pub open spec fn has_split_delta(page: Page) -> bool {
    page.items matches Items::Indexes(items) && items@.len() > 0
}

/// Tells whether the page announces a split.
pub fn is_split_delta(page: &Page) -> (r: bool)
    ensures
        r == has_split_delta(*page),
{
    match &page.items {
        Items::Indexes(items) => items.len() > 0,
        Items::Values(_) => false,
    }
}

/// Reads the announcement of a split.
pub fn split_delta_from_page(page: &Page) -> (r: (Vec<u8>, Index))
    requires
        has_split_delta(*page),
    ensures
        (r.0@, r.1) == split_delta(*page),
{
    match &page.items {
        Items::Indexes(items) => (bytes_copy(items[0].0.as_slice()), items[0].1),
        Items::Values(_) => (Vec::new(), Index::new(NAN_ID, 0)),
    }
}

} // verus!
