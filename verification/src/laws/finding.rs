//! What pages say of a key, in terms of what they hold.

use crate::bytes::{bytes_lt, lemma_bytes_irreflexive, lemma_bytes_order, lemma_bytes_transitive};
use crate::iter::{count_before, entries};
use crate::laws::delta::lemma_page_child;
use crate::laws::entries::law_entries_are_what_a_reader_sees;
use crate::laws::order::ordered;
use crate::laws::words::{law_newer_versions_come_first, parts_below};
use crate::lookup::{find_child, find_value, first_version, is_cover, is_match, is_visible,
    item_range, page_child, page_value, shown, visible_value};
use crate::page::{position_lt, sorted, Index, Items, Key, Page, PageKind, PageTier, RangeView,
    SortedPageKey, Value};
use vstd::prelude::*;

verus! {

/// The bytes that were put, if the version is no deletion.
pub open spec fn bytes_of(value: Value) -> Option<Seq<u8>> {
    match value {
        Value::Put(bytes) => Some(bytes@),
        Value::Delete => None,
    }
}

/// The version at `i` is one of the key, and no newer than `lsn`.
pub open spec fn can_be_seen(
    items: Seq<(Key, Value)>,
    raw: Seq<u8>,
    lsn: u64,
    i: int,
) -> bool {
    0 <= i < items.len() && items[i].0.raw@ == raw && items[i].0.lsn <= lsn
}

/// The version at `i` is the newest one of the key that is no newer than `lsn`.
pub open spec fn is_newest_seen(
    items: Seq<(Key, Value)>,
    raw: Seq<u8>,
    lsn: u64,
    i: int,
) -> bool {
    &&& can_be_seen(items, raw, lsn, i)
    &&& forall|j: int| #[trigger]
        can_be_seen(items, raw, lsn, j) ==> items[j].0.lsn <= items[i].0.lsn
}

/// The version at `i` is the first one of the key that is no newer than `lsn`.
pub open spec fn is_first_seen(items: Seq<(Key, Value)>, raw: Seq<u8>, lsn: u64, i: int) -> bool {
    &&& can_be_seen(items, raw, lsn, i)
    &&& forall|j: int| #[trigger] can_be_seen(items, raw, lsn, j) ==> i <= j
}

proof fn lemma_first_seen(items: Seq<(Key, Value)>, raw: Seq<u8>, lsn: u64, k: int) -> (i: int)
    requires
        can_be_seen(items, raw, lsn, k),
    ensures
        is_first_seen(items, raw, lsn, i),
    decreases k,
{
    if exists|j: int| j < k && can_be_seen(items, raw, lsn, j) {
        let j = choose|j: int| j < k && can_be_seen(items, raw, lsn, j);
        lemma_first_seen(items, raw, lsn, j)
    } else {
        k
    }
}

/// A leaf page says of a key what the newest version holds that is not too new for the
/// reader, and says nothing where it has no such version. A page that announces a split says
/// nothing of any value.
pub proof fn law_page_says_what_its_newest_version_holds(page: Page, raw: Seq<u8>, lsn: u64)
    requires
        page.wf(),
    ensures
        match page.items {
            Items::Values(v) => {
                &&& page_value(page, raw, lsn) is None <==> !exists|i: int| #[trigger]
                    can_be_seen(v@, raw, lsn, i)
                &&& forall|i: int| #[trigger]
                    is_newest_seen(v@, raw, lsn, i) ==> page_value(page, raw, lsn) == Some(
                        bytes_of(v@[i].1),
                    )
            },
            Items::Indexes(_) => page_value(page, raw, lsn) is None,
        },
{
    match page.items {
        Items::Values(v) => {
            let items = v@;
            if exists|i: int| can_be_seen(items, raw, lsn, i) {
                let k = choose|i: int| can_be_seen(items, raw, lsn, i);
                let first = lemma_first_seen(items, raw, lsn, k);
                lemma_bytes_irreflexive(raw);
                assert(is_visible(items, raw, lsn, first)) by {
                    assert forall|j: int|
                        0 <= j < items.len() && (#[trigger] items[j]).0.raw@ == raw
                            && items[j].0.lsn <= lsn implies items[j].0.lsn
                        <= items[first].0.lsn by {
                        assert(can_be_seen(items, raw, lsn, j));
                        if first < j {
                            assert(position_lt(
                                items[first].0.position(),
                                items[j].0.position(),
                            ));
                        }
                    }
                }
                let seen = choose|i: int| is_visible(items, raw, lsn, i);
                assert(is_visible(items, raw, lsn, seen));
                assert forall|i: int| #[trigger] is_newest_seen(items, raw, lsn, i) implies i
                    == seen by {
                    assert(can_be_seen(items, raw, lsn, seen));
                    if i < seen {
                        assert(position_lt(items[i].0.position(), items[seen].0.position()));
                    } else if seen < i {
                        assert(position_lt(items[seen].0.position(), items[i].0.position()));
                    }
                }
                assert(visible_value(items, raw, lsn) == Some(items[seen].1));
            } else {
                if exists|i: int| is_visible(items, raw, lsn, i) {
                    let i = choose|i: int| is_visible(items, raw, lsn, i);
                    assert(can_be_seen(items, raw, lsn, i));
                }
            }
        },
        Items::Indexes(_) => {},
    }
}

/// Of several versions a reader is shown the first one that is not too new.
pub proof fn law_reader_is_shown_the_first_version(
    items: Seq<(Key, Value)>,
    raw: Seq<u8>,
    lsn: u64,
)
    ensures
        forall|i: int| #[trigger]
            is_first_seen(items, raw, lsn, i) ==> first_version(items, raw, lsn) == Some(items[i])
                && shown(items, raw, lsn) == bytes_of(items[i].1),
        (!exists|i: int| #[trigger] can_be_seen(items, raw, lsn, i)) ==> first_version(
            items,
            raw,
            lsn,
        ) is None && shown(items, raw, lsn) is None,
    decreases items.len(),
{
    if items.len() > 0 {
        let rest = items.drop_last();
        let n = rest.len() as int;
        law_reader_is_shown_the_first_version(rest, raw, lsn);
        assert forall|i: int| 0 <= i < n implies can_be_seen(rest, raw, lsn, i) == can_be_seen(
            items,
            raw,
            lsn,
            i,
        ) by {}
        assert forall|i: int| #[trigger] is_first_seen(items, raw, lsn, i) implies first_version(
            items,
            raw,
            lsn,
        ) == Some(items[i]) && shown(items, raw, lsn) == bytes_of(items[i].1) by {
            if i < n {
                assert forall|j: int| #[trigger] can_be_seen(rest, raw, lsn, j) implies i <= j by {
                    assert(can_be_seen(items, raw, lsn, j));
                }
                assert(is_first_seen(rest, raw, lsn, i));
            } else {
                if exists|j: int| can_be_seen(rest, raw, lsn, j) {
                    let j = choose|j: int| can_be_seen(rest, raw, lsn, j);
                    assert(can_be_seen(items, raw, lsn, j));
                }
                assert(is_match(items.last(), raw, lsn));
            }
        }
        if !exists|i: int| can_be_seen(items, raw, lsn, i) {
            if exists|j: int| can_be_seen(rest, raw, lsn, j) {
                let j = choose|j: int| can_be_seen(rest, raw, lsn, j);
                assert(can_be_seen(items, raw, lsn, j));
            }
            assert(!can_be_seen(items, raw, lsn, n));
        }
    }
}

/// The entries of a leaf page are the keys with the bytes that the first version holds that is
/// not too new for the reader; a key whose first such version is a deletion has no entry.
pub proof fn law_entries_are_first_versions(
    items: Seq<(Key, Value)>,
    lsn: u64,
    raw: Seq<u8>,
    value: Seq<u8>,
)
    requires
        ordered(items),
    ensures
        entries(items, lsn).contains((raw, value)) <==> exists|i: int| #[trigger]
            is_first_seen(items, raw, lsn, i) && bytes_of(items[i].1) == Some(value),
{
    law_entries_are_what_a_reader_sees(items, lsn, raw, value);
    law_reader_is_shown_the_first_version(items, raw, lsn);
    if shown(items, raw, lsn) == Some(value) {
        assert(exists|i: int| can_be_seen(items, raw, lsn, i));
        let k = choose|i: int| can_be_seen(items, raw, lsn, i);
        let i = lemma_first_seen(items, raw, lsn, k);
        assert(is_first_seen(items, raw, lsn, i));
    }
}

/// A reader of a chain gets what the first page says that says anything, and nothing where
/// none does.
pub proof fn law_chain_says_what_its_first_page_says(chain: Seq<Page>, raw: Seq<u8>, lsn: u64)
    ensures
        forall|i: int|
            0 <= i < chain.len() && (#[trigger] page_value(chain[i], raw, lsn)) is Some && (forall|
                j: int,
            |
                0 <= j < i ==> (#[trigger] page_value(chain[j], raw, lsn)) is None) ==> find_value(
                chain,
                raw,
                lsn,
            ) == page_value(chain[i], raw, lsn)->0,
        (forall|j: int|
            0 <= j < chain.len() ==> (#[trigger] page_value(chain[j], raw, lsn)) is None)
            ==> find_value(chain, raw, lsn) is None,
    decreases chain.len(),
{
    if chain.len() > 0 {
        let rest = chain.drop_first();
        law_chain_says_what_its_first_page_says(rest, raw, lsn);
        assert forall|i: int|
            0 <= i < chain.len() && (#[trigger] page_value(chain[i], raw, lsn)) is Some && (forall|
                j: int,
            |
                0 <= j < i ==> (#[trigger] page_value(chain[j], raw, lsn)) is None) implies
            find_value(chain, raw, lsn) == page_value(chain[i], raw, lsn)->0 by {
            if i > 0 {
                assert(page_value(chain[0], raw, lsn) is None);
                assert(rest[i - 1] == chain[i]);
                assert forall|j: int| 0 <= j < i - 1 implies (#[trigger] page_value(
                    rest[j],
                    raw,
                    lsn,
                )) is None by {
                    assert(page_value(chain[j + 1], raw, lsn) is None);
                }
            }
        }
        if forall|j: int|
            0 <= j < chain.len() ==> (#[trigger] page_value(chain[j], raw, lsn)) is None {
            assert(page_value(chain[0], raw, lsn) is None);
            assert forall|j: int| 0 <= j < rest.len() implies (#[trigger] page_value(
                rest[j],
                raw,
                lsn,
            )) is None by {
                assert(page_value(chain[j + 1], raw, lsn) is None);
            }
        }
    }
}

/// An inner page names for a key the child of the last reference that is not after the key,
/// for the keys from there up to the next reference. It names none where that reference is a
/// placeholder, and none for a key before all of them; nor does a page that announces a split.
pub proof fn law_page_names_the_child(page: Page, raw: Seq<u8>)
    requires
        page.wf(),
    ensures
        page.items is Values || page.info.kind is Split ==> page_child(page, raw) is None,
        page.items matches Items::Indexes(v) ==> (page.info.kind is Data ==> {
            &&& (v@.len() == 0 || bytes_lt(raw, v@[0].0@)) ==> page_child(page, raw) is None
            &&& forall|i: int|
                0 <= i < v@.len() && !bytes_lt(raw, #[trigger] v@[i].0@) && (i + 1 < v@.len()
                    ==> bytes_lt(raw, v@[i + 1].0@)) ==> page_child(page, raw) == if v@[i].1.id
                    == 0 && v@[i].1.epoch == 0 {
                    None::<(Index, RangeView)>
                } else {
                    Some(
                        (
                            v@[i].1,
                            RangeView {
                                start: v@[i].0@,
                                end: if i + 1 < v@.len() {
                                    Some(v@[i + 1].0@)
                                } else {
                                    None
                                },
                            },
                        ),
                    )
                }
        }),
{
    match page.items {
        Items::Values(_) => {},
        Items::Indexes(v) => {
            if page.info.kind is Data {
                if v@.len() > 0 && bytes_lt(raw, v@[0].0@) {
                    if exists|i: int| is_cover(v@, raw, i) {
                        let i = choose|i: int| is_cover(v@, raw, i);
                        assert(is_cover(v@, raw, i));
                        lemma_bytes_order(v@[i].0@, raw);
                        if i > 0 {
                            assert(position_lt(v@[0].0.position(), v@[i].0.position()));
                            lemma_bytes_transitive(raw, v@[0].0@, v@[i].0@);
                        }
                    }
                }
                assert forall|i: int|
                    0 <= i < v@.len() && !bytes_lt(raw, #[trigger] v@[i].0@) && (i + 1 < v@.len()
                        ==> bytes_lt(raw, v@[i + 1].0@)) implies is_cover(v@, raw, i) && page_child(
                    page,
                    raw,
                ) == (if v@[i].1 == (Index { id: 0, epoch: 0 }) {
                    None
                } else {
                    Some((v@[i].1, item_range(v@, i)))
                }) by {
                    lemma_bytes_order(v@[i].0@, raw);
                    lemma_page_child(page, raw, i);
                }
            }
        },
    }
}

/// A chain names for a key the child that the first page names that names any.
pub proof fn law_chain_names_what_its_first_page_names(chain: Seq<Page>, raw: Seq<u8>)
    ensures
        forall|i: int|
            0 <= i < chain.len() && (#[trigger] page_child(chain[i], raw)) is Some && (forall|
                j: int,
            |
                0 <= j < i ==> (#[trigger] page_child(chain[j], raw)) is None) ==> find_child(
                chain,
                raw,
            ) == page_child(chain[i], raw),
        (forall|j: int| 0 <= j < chain.len() ==> (#[trigger] page_child(chain[j], raw)) is None)
            ==> find_child(chain, raw) is None,
    decreases chain.len(),
{
    if chain.len() > 0 {
        let rest = chain.drop_first();
        law_chain_names_what_its_first_page_names(rest, raw);
        assert forall|i: int|
            0 <= i < chain.len() && (#[trigger] page_child(chain[i], raw)) is Some && (forall|
                j: int,
            |
                0 <= j < i ==> (#[trigger] page_child(chain[j], raw)) is None) implies find_child(
            chain,
            raw,
        ) == page_child(chain[i], raw) by {
            if i > 0 {
                assert(page_child(chain[0], raw) is None);
                assert(rest[i - 1] == chain[i]);
                assert forall|j: int| 0 <= j < i - 1 implies (#[trigger] page_child(
                    rest[j],
                    raw,
                )) is None by {
                    assert(page_child(chain[j + 1], raw) is None);
                }
            }
        }
        if forall|j: int| 0 <= j < chain.len() ==> (#[trigger] page_child(chain[j], raw)) is None {
            assert(page_child(chain[0], raw) is None);
            assert forall|j: int| 0 <= j < rest.len() implies (#[trigger] page_child(
                rest[j],
                raw,
            )) is None by {
                assert(page_child(chain[j + 1], raw) is None);
            }
        }
    }
}

/// An iterator that seeks a target passes over exactly the items at the front whose keys come
/// before it.
pub proof fn law_seeking_passes_over_what_is_before<K: SortedPageKey, V>(
    items: Seq<(K, V)>,
    target: Seq<u8>,
)
    ensures
        count_before(items, target) <= items.len(),
        forall|i: int|
            0 <= i < count_before(items, target) ==> bytes_lt(
                (#[trigger] items[i]).0.position().0,
                target,
            ),
        count_before(items, target) < items.len() ==> !bytes_lt(
            items[count_before(items, target) as int].0.position().0,
            target,
        ),
    decreases items.len(),
{
    if items.len() > 0 && bytes_lt(items[0].0.position().0, target) {
        let rest = items.drop_first();
        law_seeking_passes_over_what_is_before(rest, target);
        assert forall|i: int| 0 <= i < count_before(items, target) implies bytes_lt(
            (#[trigger] items[i]).0.position().0,
            target,
        ) by {
            if i > 0 {
                assert(rest[i - 1] == items[i]);
            }
        }
    }
}

/// The byte string comes before the other in the order of words.
pub open spec fn is_below(a: Seq<u8>, b: Seq<u8>) -> bool {
    exists|n: int| #[trigger] parts_below(a, b, n)
}

/// The versions stand in the order of their keys, and those of one key newest first.
pub open spec fn versions_stand_in_order(items: Seq<(Key, Value)>) -> bool {
    forall|i: int, j: int|
        #![trigger items[i], items[j]]
        0 <= i < j < items.len() ==> is_below(items[i].0.raw@, items[j].0.raw@) || (
        items[i].0.raw@ == items[j].0.raw@ && items[i].0.lsn > items[j].0.lsn)
}

/// The references stand in the order of their keys, each key once.
pub open spec fn children_stand_in_order(items: Seq<(Vec<u8>, Index)>) -> bool {
    forall|i: int, j: int|
        #![trigger items[i], items[j]]
        0 <= i < j < items.len() ==> is_below(items[i].0@, items[j].0@)
}

proof fn lemma_versions_in_order(items: Seq<(Key, Value)>)
    ensures
        sorted(items) <==> versions_stand_in_order(items),
{
    assert forall|i: int, j: int| #![trigger items[i], items[j]]
        0 <= i < j < items.len() implies position_lt(
        items[i].0.position(),
        items[j].0.position(),
    ) == (is_below(items[i].0.raw@, items[j].0.raw@) || (items[i].0.raw@ == items[j].0.raw@
        && items[i].0.lsn > items[j].0.lsn)) by {
        law_newer_versions_come_first(items[i].0.position(), items[j].0.position());
    }
    if sorted(items) {
        assert forall|i: int, j: int| #![trigger items[i], items[j]]
            0 <= i < j < items.len() implies is_below(items[i].0.raw@, items[j].0.raw@) || (
        items[i].0.raw@ == items[j].0.raw@ && items[i].0.lsn > items[j].0.lsn) by {
            assert(position_lt(items[i].0.position(), items[j].0.position()));
        }
    }
}

proof fn lemma_children_in_order(items: Seq<(Vec<u8>, Index)>)
    ensures
        sorted(items) <==> children_stand_in_order(items),
{
    assert forall|i: int, j: int| #![trigger items[i], items[j]]
        0 <= i < j < items.len() implies position_lt(
        items[i].0.position(),
        items[j].0.position(),
    ) == is_below(items[i].0@, items[j].0@) by {
        law_newer_versions_come_first(items[i].0.position(), items[j].0.position());
    }
    if sorted(items) {
        assert forall|i: int, j: int| #![trigger items[i], items[j]]
            0 <= i < j < items.len() implies is_below(items[i].0@, items[j].0@) by {
            assert(position_lt(items[i].0.position(), items[j].0.position()));
        }
    }
}

/// A page is well formed exactly if its contents are of the sort that its header announces,
/// and stand in order.
pub proof fn law_pages_hold_their_keys_in_order(page: Page)
    ensures
        page.wf() <==> match page.items {
            Items::Values(v) => {
                &&& page.info.tier == PageTier::Leaf
                &&& page.info.kind == PageKind::Data
                &&& versions_stand_in_order(v@)
            },
            Items::Indexes(v) => {
                &&& page.info.tier == PageTier::Inner || page.info.kind == PageKind::Split
                &&& children_stand_in_order(v@)
            },
        },
{
    match page.items {
        Items::Values(v) => {
            lemma_versions_in_order(v@);
        },
        Items::Indexes(v) => {
            lemma_children_in_order(v@);
        },
    }
}

} // verus!
