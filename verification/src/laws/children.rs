//! What is left of the children when inner pages are merged.

use crate::bytes::{bytes_le, lemma_bytes_irreflexive, lemma_bytes_le_lt, lemma_bytes_order};
use crate::consolidate::{is_consolidated, Collected};
use crate::laws::collection::{chain_limit, data_indexes, holds};
use crate::laws::versions::{lemma_merged_pair_from, or_else};
use crate::merge::{limited, live_children, merged, merged_onto, merged_pair, under_limit};
use crate::page::{null_index, position_lt, sorted, Index, Items, Page, PageKind, SortedPageKey};
use vstd::prelude::*;

verus! {

/// The item, where it refers to a child that begins at the key.
pub open spec fn live_item(x: (Vec<u8>, Index), key: Seq<u8>) -> Option<Index> {
    if x.0@ == key && x.1 != null_index() {
        Some(x.1)
    } else {
        None
    }
}

/// The first child among the items that begins at the key.
pub open spec fn first_live(items: Seq<(Vec<u8>, Index)>, key: Seq<u8>) -> Option<Index>
    decreases items.len(),
{
    if items.len() == 0 {
        None
    } else {
        or_else(first_live(items.drop_last(), key), live_item(items.last(), key))
    }
}

/// The child that begins at the key, as the page has it.
pub open spec fn page_live(page: Page, key: Seq<u8>) -> Option<Index> {
    match (page.info.kind, page.items) {
        (PageKind::Data, Items::Indexes(v)) => first_live(v@, key),
        _ => None,
    }
}

/// The child that begins at the key, as the newest page of the chain has it that has any.
pub open spec fn chain_live(chain: Seq<Page>, key: Seq<u8>) -> Option<Index>
    decreases chain.len(),
{
    if chain.len() == 0 {
        None
    } else {
        or_else(page_live(chain[0], key), chain_live(chain.drop_first(), key))
    }
}

/// The keys do not decrease.
pub open spec fn ascending(items: Seq<(Vec<u8>, Index)>) -> bool {
    forall|i: int, j: int|
        0 <= i < j < items.len() ==> bytes_le(#[trigger] items[i].0@, #[trigger] items[j].0@)
}

pub proof fn lemma_first_live_item(items: Seq<(Vec<u8>, Index)>, key: Seq<u8>)
    ensures
        first_live(items, key) matches Some(index) ==> exists|i: int|
            0 <= i < items.len() && live_item(#[trigger] items[i], key) == Some(index),
    decreases items.len(),
{
    if items.len() > 0 {
        let rest = items.drop_last();
        lemma_first_live_item(rest, key);
        match first_live(items, key) {
            Some(index) => {
                if first_live(rest, key) is Some {
                    let i = choose|i: int|
                        0 <= i < rest.len() && live_item(#[trigger] rest[i], key) == Some(index);
                    assert(items[i] == rest[i]);
                } else {
                    assert(live_item(items[items.len() - 1], key) == Some(index));
                }
            },
            None => {},
        }
    }
}

proof fn lemma_item_is_live(items: Seq<(Vec<u8>, Index)>, i: int)
    requires
        0 <= i < items.len(),
        items[i].1 != null_index(),
    ensures
        first_live(items, items[i].0@) is Some,
    decreases items.len(),
{
    if i < items.len() - 1 {
        assert(items.drop_last()[i] == items[i]);
        lemma_item_is_live(items.drop_last(), i);
    }
}

/// In a page in order a child that begins at a key is the only one.
pub proof fn lemma_live_index(items: Seq<(Vec<u8>, Index)>, i: int)
    requires
        sorted(items),
        0 <= i < items.len(),
        items[i].1 != null_index(),
    ensures
        first_live(items, items[i].0@) == Some(items[i].1),
{
    let key = items[i].0@;
    lemma_item_is_live(items, i);
    lemma_first_live_item(items, key);
    let index = first_live(items, key)->0;
    let j = choose|j: int| 0 <= j < items.len() && live_item(#[trigger] items[j], key) == Some(
        index,
    );
    lemma_bytes_irreflexive(key);
    if i < j {
        assert(position_lt(items[i].0.position(), items[j].0.position()));
    }
    if j < i {
        assert(position_lt(items[j].0.position(), items[i].0.position()));
    }
}

/// A chain with one more page in front.
pub proof fn lemma_chain_live_front(page: Page, chain: Seq<Page>, key: Seq<u8>)
    ensures
        chain_live(seq![page] + chain, key) == or_else(
            page_live(page, key),
            chain_live(chain, key),
        ),
{
    assert((seq![page] + chain).drop_first() =~= chain);
}

proof fn lemma_ascending_parts(items: Seq<(Vec<u8>, Index)>)
    requires
        ascending(items),
        items.len() > 0,
    ensures
        ascending(items.drop_last()),
{
    let rest = items.drop_last();
    assert forall|i: int, j: int| 0 <= i < j < rest.len() implies bytes_le(
        #[trigger] rest[i].0@,
        #[trigger] rest[j].0@,
    ) by {
        assert(bytes_le(items[i].0@, items[j].0@));
    }
}

/// Merged items ascend, and of each key the child of the newer page comes first.
proof fn lemma_merged_pair_live(
    newer: Seq<(Vec<u8>, Index)>,
    older: Seq<(Vec<u8>, Index)>,
    key: Seq<u8>,
)
    requires
        ascending(newer),
        ascending(older),
    ensures
        ascending(merged_pair(newer, older)),
        first_live(merged_pair(newer, older), key) == or_else(
            first_live(newer, key),
            first_live(older, key),
        ),
    decreases newer.len() + older.len(),
{
    if newer.len() > 0 && older.len() > 0 {
        let n = newer.len() - 1;
        let o = older.len() - 1;
        let from_newer = position_lt(older.last().0.position(), newer.last().0.position());
        let (a, b) = if from_newer {
            (newer.drop_last(), older)
        } else {
            (newer, older.drop_last())
        };
        let x = if from_newer {
            newer.last()
        } else {
            older.last()
        };
        lemma_ascending_parts(newer);
        lemma_ascending_parts(older);
        lemma_merged_pair_live(a, b, key);
        let rest = merged_pair(a, b);
        let all = merged_pair(newer, older);
        assert(all =~= rest.push(x));
        assert(all.drop_last() =~= rest);
        lemma_bytes_order(older[o].0@, newer[n].0@);
        lemma_bytes_order(newer[n].0@, older[o].0@);
        assert forall|i: int, j: int| 0 <= i < j < all.len() implies bytes_le(
            #[trigger] all[i].0@,
            #[trigger] all[j].0@,
        ) by {
            if j < rest.len() {
                assert(bytes_le(rest[i].0@, rest[j].0@));
            } else {
                lemma_merged_pair_from(a, b, i);
                let y = rest[i];
                if exists|k: int| 0 <= k < a.len() && #[trigger] a[k] == y {
                    let k = choose|k: int| 0 <= k < a.len() && #[trigger] a[k] == y;
                    assert(newer[k] == y);
                    if k < n {
                        assert(bytes_le(newer[k].0@, newer[n].0@));
                    }
                    lemma_bytes_le_lt(newer[k].0@, newer[n].0@, older[o].0@);
                } else {
                    let k = choose|k: int| 0 <= k < b.len() && #[trigger] b[k] == y;
                    assert(older[k] == y);
                    if k < o {
                        assert(bytes_le(older[k].0@, older[o].0@));
                    }
                    lemma_bytes_le_lt(older[k].0@, older[o].0@, newer[n].0@);
                }
            }
        }
        if from_newer && live_item(x, key) is Some && first_live(older, key) is Some {
            lemma_first_live_item(older, key);
            let index = first_live(older, key)->0;
            let j = choose|j: int|
                0 <= j < older.len() && live_item(#[trigger] older[j], key) == Some(index);
            if j < o {
                assert(bytes_le(older[j].0@, older[o].0@));
            }
            lemma_bytes_le_lt(older[j].0@, older[o].0@, newer[n].0@);
            lemma_bytes_irreflexive(key);
        }
    }
}

/// The child that begins at the key, as the newest page has it that has any.
pub open spec fn pages_live(pages: Seq<Vec<(Vec<u8>, Index)>>, key: Seq<u8>) -> Option<Index>
    decreases pages.len(),
{
    if pages.len() == 0 {
        None
    } else {
        or_else(first_live(pages[0]@, key), pages_live(pages.drop_first(), key))
    }
}

proof fn lemma_pages_live_last(pages: Seq<Vec<(Vec<u8>, Index)>>, key: Seq<u8>)
    requires
        pages.len() > 0,
    ensures
        pages_live(pages, key) == or_else(
            pages_live(pages.drop_last(), key),
            first_live(pages.last()@, key),
        ),
    decreases pages.len(),
{
    if pages.len() > 1 {
        lemma_pages_live_last(pages.drop_first(), key);
        assert(pages.drop_first().drop_last() =~= pages.drop_last().drop_first());
        assert(pages.drop_first().last() == pages.last());
        assert(pages.drop_last()[0] == pages[0]);
    } else {
        assert(pages.drop_first() =~= pages.drop_last());
    }
}

/// The keys of every page ascend.
pub open spec fn all_ascending(pages: Seq<Vec<(Vec<u8>, Index)>>) -> bool {
    forall|i: int| 0 <= i < pages.len() ==> ascending(#[trigger] pages[i]@)
}

proof fn lemma_merged_onto_live(
    pages: Seq<Vec<(Vec<u8>, Index)>>,
    oldest: Seq<(Vec<u8>, Index)>,
    key: Seq<u8>,
)
    requires
        all_ascending(pages),
        ascending(oldest),
    ensures
        ascending(merged_onto(pages, oldest)),
        first_live(merged_onto(pages, oldest), key) == or_else(
            pages_live(pages, key),
            first_live(oldest, key),
        ),
    decreases pages.len(),
{
    if pages.len() > 0 {
        let rest = pages.drop_last();
        assert(all_ascending(rest)) by {
            assert forall|i: int| 0 <= i < rest.len() implies ascending(#[trigger] rest[i]@) by {
                assert(rest[i] == pages[i]);
            }
        }
        assert(pages.last() == pages[pages.len() - 1]);
        lemma_merged_pair_live(pages.last()@, oldest, key);
        lemma_merged_onto_live(rest, merged_pair(pages.last()@, oldest), key);
        lemma_pages_live_last(pages, key);
    }
}

proof fn lemma_limited_live(items: Seq<(Vec<u8>, Index)>, limit: Option<Seq<u8>>, key: Seq<u8>)
    requires
        ascending(items),
    ensures
        ascending(limited(items, limit)),
        forall|i: int|
            0 <= i < limited(items, limit).len() && items.len() > 0 ==> bytes_le(
                (#[trigger] limited(items, limit)[i]).0@,
                items.last().0@,
            ),
        first_live(limited(items, limit), key) == if under_limit(key, limit) {
            first_live(items, key)
        } else {
            None
        },
    decreases items.len(),
{
    if items.len() > 0 {
        let rest = items.drop_last();
        let x = items.last();
        let kept = limited(rest, limit);
        let all = limited(items, limit);
        lemma_ascending_parts(items);
        lemma_limited_live(rest, limit, key);
        assert forall|i: int| 0 <= i < kept.len() implies bytes_le(
            (#[trigger] kept[i]).0@,
            x.0@,
        ) by {
            assert(rest.len() > 0);
            assert(bytes_le(kept[i].0@, rest.last().0@));
            assert(bytes_le(items[rest.len() - 1].0@, items[items.len() - 1].0@));
            lemma_bytes_le_lt(kept[i].0@, rest.last().0@, x.0@);
        }
        if under_limit(x.0@, limit) {
            assert(all =~= kept.push(x));
            assert(all.drop_last() =~= kept);
            assert forall|i: int, j: int| 0 <= i < j < all.len() implies bytes_le(
                #[trigger] all[i].0@,
                #[trigger] all[j].0@,
            ) by {
                if j < kept.len() {
                    assert(bytes_le(kept[i].0@, kept[j].0@));
                } else {
                    assert(bytes_le(kept[i].0@, x.0@));
                }
            }
            assert forall|i: int| 0 <= i < all.len() implies bytes_le(
                (#[trigger] all[i]).0@,
                x.0@,
            ) by {
                if i < kept.len() {
                    assert(all[i] == kept[i]);
                }
            }
        }
    }
}

/// No item is a placeholder.
pub open spec fn all_live(items: Seq<(Vec<u8>, Index)>) -> bool {
    forall|i: int| 0 <= i < items.len() ==> (#[trigger] items[i]).1 != null_index()
}

proof fn lemma_live_children(items: Seq<(Vec<u8>, Index)>, key: Seq<u8>)
    requires
        ascending(items),
    ensures
        sorted(live_children(items)),
        all_live(live_children(items)),
        first_live(live_children(items), key) == first_live(items, key),
        forall|i: int|
            0 <= i < live_children(items).len() && items.len() > 0 ==> bytes_le(
                (#[trigger] live_children(items)[i]).0@,
                items.last().0@,
            ),
    decreases items.len(),
{
    if items.len() > 0 {
        let rest = items.drop_last();
        let x = items.last();
        let kept = live_children(rest);
        let all = live_children(items);
        lemma_ascending_parts(items);
        lemma_live_children(rest, key);
        assert forall|i: int| 0 <= i < kept.len() implies bytes_le(
            (#[trigger] kept[i]).0@,
            x.0@,
        ) by {
            assert(rest.len() > 0);
            assert(bytes_le(kept[i].0@, rest.last().0@));
            assert(bytes_le(items[rest.len() - 1].0@, items[items.len() - 1].0@));
            lemma_bytes_le_lt(kept[i].0@, rest.last().0@, x.0@);
        }
        let covered = kept.len() > 0 && kept.last().0@ == x.0@;
        if x.1 == null_index() {
        } else if covered {
            if x.0@ == key {
                lemma_live_index(kept, kept.len() - 1);
            }
        } else {
            assert(all =~= kept.push(x));
            assert(all.drop_last() =~= kept);
            assert forall|i: int, j: int| 0 <= i < j < all.len() implies position_lt(
                #[trigger] all[i].0.position(),
                #[trigger] all[j].0.position(),
            ) by {
                if j < kept.len() {
                    assert(position_lt(kept[i].0.position(), kept[j].0.position()));
                } else {
                    let m = kept.len() - 1;
                    assert(bytes_le(kept[m].0@, x.0@));
                    if i < m {
                        assert(position_lt(kept[i].0.position(), kept[m].0.position()));
                        lemma_bytes_le_lt(kept[i].0@, kept[m].0@, x.0@);
                    }
                }
            }
            assert forall|i: int| 0 <= i < all.len() implies bytes_le(
                (#[trigger] all[i]).0@,
                x.0@,
            ) by {
                if i < kept.len() {
                    assert(all[i] == kept[i]);
                }
            }
        }
    }
}

/// The children that are left of ascending items are in order.
pub proof fn lemma_live_children_sorted(items: Seq<(Vec<u8>, Index)>)
    requires
        ascending(items),
    ensures
        sorted(live_children(items)),
{
    lemma_live_children(items, Seq::empty());
}

proof fn lemma_data_indexes_first(chain: Seq<Page>)
    requires
        chain.len() > 0,
    ensures
        data_indexes(chain) == match (chain[0].info.kind, chain[0].items) {
            (PageKind::Data, Items::Indexes(v)) => seq![v] + data_indexes(chain.drop_first()),
            _ => data_indexes(chain.drop_first()),
        },
    decreases chain.len(),
{
    if chain.len() == 1 {
        assert(chain.drop_last() =~= Seq::<Page>::empty());
        assert(chain.drop_first() =~= Seq::<Page>::empty());
        match chain[0].items {
            Items::Indexes(v) => {
                assert(Seq::<Vec<(Vec<u8>, Index)>>::empty().push(v) =~= seq![v]
                    + Seq::<Vec<(Vec<u8>, Index)>>::empty());
            },
            Items::Values(_) => {},
        }
    } else {
        lemma_data_indexes_first(chain.drop_last());
        assert(chain.drop_last()[0] == chain[0]);
        assert(chain.drop_last().drop_first() =~= chain.drop_first().drop_last());
        assert(chain.drop_first().last() == chain.last());
        match (chain[0].items, chain.last().items) {
            (Items::Indexes(v), Items::Indexes(w)) => {
                let middle = data_indexes(chain.drop_first().drop_last());
                assert((seq![v] + middle).push(w) =~= seq![v] + middle.push(w));
            },
            _ => {},
        }
    }
}

/// Every page of the chain is well formed.
pub open spec fn chain_wf(chain: Seq<Page>) -> bool {
    forall|i: int| 0 <= i < chain.len() ==> (#[trigger] chain[i]).wf()
}

pub proof fn lemma_chain_wf_rest(chain: Seq<Page>)
    requires
        chain_wf(chain),
        chain.len() > 0,
    ensures
        chain_wf(chain.drop_first()),
{
    assert forall|i: int| 0 <= i < chain.drop_first().len() implies (
    #[trigger] chain.drop_first()[i]).wf() by {
        assert(chain.drop_first()[i] == chain[i + 1]);
    }
}

proof fn lemma_sorted_ascends(items: Seq<(Vec<u8>, Index)>)
    requires
        sorted(items),
    ensures
        ascending(items),
{
    assert forall|i: int, j: int| 0 <= i < j < items.len() implies bytes_le(
        #[trigger] items[i].0@,
        #[trigger] items[j].0@,
    ) by {
        assert(position_lt(items[i].0.position(), items[j].0.position()));
    }
}

proof fn lemma_chain_live_pages(chain: Seq<Page>, key: Seq<u8>)
    requires
        chain_wf(chain),
    ensures
        pages_live(data_indexes(chain), key) == chain_live(chain, key),
        all_ascending(data_indexes(chain)),
    decreases chain.len(),
{
    if chain.len() > 0 {
        let rest = chain.drop_first();
        lemma_chain_wf_rest(chain);
        lemma_chain_live_pages(rest, key);
        lemma_data_indexes_first(chain);
        match (chain[0].info.kind, chain[0].items) {
            (PageKind::Data, Items::Indexes(v)) => {
                let pages = seq![v] + data_indexes(rest);
                assert(pages.drop_first() =~= data_indexes(rest));
                assert(chain[0].wf());
                lemma_sorted_ascends(v@);
                assert forall|i: int| 0 <= i < pages.len() implies ascending(
                    #[trigger] pages[i]@,
                ) by {
                    if i > 0 {
                        assert(pages[i] == data_indexes(rest)[i - 1]);
                    }
                }
            },
            _ => {},
        }
    }
}

/// The page that takes the place of an inner chain: in order, without placeholders, and
/// with the children that the chain has for the keys before its limit.
pub proof fn law_consolidated_children(
    chain: Seq<Page>,
    new: Page,
    pages: Collected,
    safe_lsn: u64,
    key: Seq<u8>,
)
    requires
        chain_wf(chain),
        pages is Indexes,
        holds(pages, chain),
        is_consolidated(new.items, pages, chain_limit(chain), safe_lsn),
    ensures
        new.items matches Items::Indexes(v) && {
            &&& sorted(v@)
            &&& all_live(v@)
            &&& first_live(v@, key) == if under_limit(key, chain_limit(chain)) {
                chain_live(chain, key)
            } else {
                None
            }
        },
{
    let all = data_indexes(chain);
    let limit = chain_limit(chain);
    let none = Seq::<(Vec<u8>, Index)>::empty();
    lemma_chain_live_pages(chain, key);
    lemma_merged_onto_live(all, none, key);
    lemma_limited_live(merged(all), limit, key);
    lemma_live_children(limited(merged(all), limit), key);
}

} // verus!
