//! What the chains of inner pages keep to while they grow, split and are consolidated.

use crate::bytes::{bytes_le, bytes_lt, lemma_bytes_irreflexive, lemma_bytes_le_lt,
    lemma_bytes_order};
use crate::consolidate::{is_consolidated, Collected};
use crate::laws::children::{all_live, chain_live, chain_wf, first_live, law_consolidated_children,
    lemma_chain_live_front, lemma_first_live_item, lemma_live_index, live_item, page_live};
use crate::laws::collection::{chain_limit, holds};
use crate::laws::delta::{law_reconcile_redirects, lemma_find_child_front, lemma_page_child};
use crate::laws::halves::lemma_cover_exists;
use crate::lookup::{find_child, is_cover, item_range, page_child};
use crate::merge::under_limit;
use crate::page::{null_index, position_lt, sorted, Index, Items, Page, RangeView, SortedPageKey};
use crate::reconcile::is_reconcile_delta;
use vstd::prelude::*;

verus! {

/// The range of a child: as its parent gives it, or up to the end of the parent's own range
/// where the parent gives no end.
pub open spec fn child_range(end: Option<Seq<u8>>, child: RangeView) -> RangeView {
    RangeView {
        start: child.start,
        end: match child.end {
            Some(_) => child.end,
            None => end,
        },
    }
}

/// The chain sends the key to the child that begins last before it, and gives that child
/// the range up to where the next one begins.
pub open spec fn routes(chain: Seq<Page>, end: Option<Seq<u8>>, raw: Seq<u8>) -> bool {
    match find_child(chain, raw) {
        None => forall|k: Seq<u8>| #[trigger] chain_live(chain, k) is Some ==> !bytes_le(k, raw),
        Some((index, range)) => {
            &&& range.contains(raw)
            &&& chain_live(chain, range.start) == Some(index)
            &&& forall|k: Seq<u8>| #[trigger]
                chain_live(chain, k) is Some && bytes_lt(range.start, k) && under_limit(k, end)
                    ==> range.end is Some && bytes_le(range.end->0, k)
            &&& range.end matches Some(e) ==> end == Some(e) || (chain_live(chain, e) is Some
                && under_limit(e, end))
        },
    }
}

/// The chain sends every key before the end of its range to the right child.
pub open spec fn regular(chain: Seq<Page>, end: Option<Seq<u8>>) -> bool {
    forall|raw: Seq<u8>| under_limit(raw, end) ==> #[trigger] routes(chain, end, raw)
}

/// The child and its range, as a search takes them from the chain.
pub open spec fn child_at(chain: Seq<Page>, end: Option<Seq<u8>>, raw: Seq<u8>) -> Option<
    (Index, RangeView),
> {
    match find_child(chain, raw) {
        Some((index, range)) => Some((index, child_range(end, range))),
        None => None,
    }
}

pub proof fn lemma_single_live(page: Page, key: Seq<u8>)
    ensures
        chain_live(seq![page], key) == page_live(page, key),
        find_child(seq![page], key) == page_child(page, key),
{
    assert(seq![page] =~= seq![page] + Seq::<Page>::empty());
    lemma_chain_live_front(page, Seq::empty(), key);
    lemma_find_child_front(page, Seq::empty(), key);
}

/// A page without placeholders that stands alone sends every key to the right child.
pub proof fn law_whole_page_is_regular(page: Page, end: Option<Seq<u8>>)
    requires
        page.info.kind is Data,
        page.items matches Items::Indexes(v) && sorted(v@) && all_live(v@),
        page.items matches Items::Indexes(v) && forall|i: int|
            0 <= i < v@.len() ==> under_limit(#[trigger] v@[i].0@, end),
    ensures
        regular(seq![page], end),
{
    let items = page.items->Indexes_0@;
    assert forall|raw: Seq<u8>| under_limit(raw, end) implies #[trigger] routes(
        seq![page],
        end,
        raw,
    ) by {
        lemma_single_live(page, raw);
        if exists|i: int| is_cover(items, raw, i) {
            let i = choose|i: int| is_cover(items, raw, i);
            lemma_page_child(page, raw, i);
            let range = item_range(items, i);
            lemma_single_live(page, range.start);
            lemma_live_index(items, i);
            assert forall|k: Seq<u8>| #[trigger]
                chain_live(seq![page], k) is Some && bytes_lt(range.start, k) && under_limit(
                    k,
                    end,
                ) implies range.end is Some && bytes_le(range.end->0, k) by {
                lemma_single_live(page, k);
                lemma_first_live_item(items, k);
                let index = first_live(items, k)->0;
                let j = choose|j: int|
                    0 <= j < items.len() && live_item(#[trigger] items[j], k) == Some(index);
                lemma_bytes_irreflexive(k);
                if j < i {
                    assert(position_lt(items[j].0.position(), items[i].0.position()));
                    lemma_bytes_order(items[j].0@, items[i].0@);
                }
                assert(j > i);
                if j > i + 1 {
                    assert(position_lt(items[i + 1].0.position(), items[j].0.position()));
                }
            }
            if i + 1 < items.len() {
                lemma_single_live(page, items[i + 1].0@);
                lemma_live_index(items, i + 1);
            }
        } else {
            assert forall|k: Seq<u8>| #[trigger] chain_live(seq![page], k) is Some implies
                !bytes_le(k, raw) by {
                lemma_single_live(page, k);
                lemma_first_live_item(items, k);
                let index = first_live(items, k)->0;
                let j = choose|j: int|
                    0 <= j < items.len() && live_item(#[trigger] items[j], k) == Some(index);
                if bytes_le(k, raw) {
                    lemma_cover_exists(items, j, raw);
                }
            }
        }
    }
}

/// Two keys that one child is responsible for are both sent to it, with the same range.
pub proof fn law_children_share_no_keys(
    chain: Seq<Page>,
    end: Option<Seq<u8>>,
    a: Seq<u8>,
    b: Seq<u8>,
)
    requires
        regular(chain, end),
        under_limit(a, end),
        child_at(chain, end, a) matches Some((_, range)) && range.contains(b),
    ensures
        under_limit(b, end),
        child_at(chain, end, b) == child_at(chain, end, a),
{
    assert(routes(chain, end, a));
    let rx = (find_child(chain, a)->0).1;
    match (rx.end, end) {
        (Some(e), Some(limit)) => {
            lemma_bytes_le_lt(b, e, limit);
        },
        _ => {},
    }
    assert(under_limit(b, end));
    assert(routes(chain, end, b));
    assert(chain_live(chain, rx.start) is Some);
    let ry = (find_child(chain, b)->0).1;
    assert(chain_live(chain, ry.start) is Some);
    // Neither child begins before the other.
    lemma_bytes_order(rx.start, ry.start);
    lemma_under_limit(ry.start, b, end);
    lemma_under_limit(rx.start, a, end);
    if bytes_lt(rx.start, ry.start) {
        lemma_not_between(rx.end->0, ry.start, b);
    }
    if bytes_lt(ry.start, rx.start) {
        lemma_not_between(ry.end->0, rx.start, b);
    }
    assert(rx.start == ry.start);
    lemma_bytes_le_lt(rx.start, a, rx.end->0);
    lemma_bytes_le_lt(ry.start, b, ry.end->0);
    lemma_same_end(chain, end, rx, ry);
}

/// What comes before a key that comes before the limit comes before it too.
pub proof fn lemma_under_limit(a: Seq<u8>, b: Seq<u8>, end: Option<Seq<u8>>)
    requires
        bytes_le(a, b),
        under_limit(b, end),
    ensures
        under_limit(a, end),
{
    match end {
        Some(e) => {
            lemma_bytes_le_lt(a, b, e);
        },
        None => {},
    }
}

proof fn lemma_not_between(e: Seq<u8>, k: Seq<u8>, raw: Seq<u8>)
    requires
        bytes_le(e, k),
        bytes_le(k, raw),
    ensures
        !bytes_lt(raw, e),
{
    lemma_bytes_le_lt(e, k, raw);
    lemma_bytes_order(e, raw);
    lemma_bytes_irreflexive(raw);
}

proof fn lemma_same_end(
    chain: Seq<Page>,
    end: Option<Seq<u8>>,
    rx: RangeView,
    ry: RangeView,
)
    requires
        rx.start == ry.start,
        forall|k: Seq<u8>| #[trigger]
            chain_live(chain, k) is Some && bytes_lt(rx.start, k) && under_limit(k, end)
                ==> rx.end is Some && bytes_le(rx.end->0, k),
        forall|k: Seq<u8>| #[trigger]
            chain_live(chain, k) is Some && bytes_lt(ry.start, k) && under_limit(k, end)
                ==> ry.end is Some && bytes_le(ry.end->0, k),
        rx.end matches Some(e) ==> end == Some(e) || (chain_live(chain, e) is Some && under_limit(
            e,
            end,
        )),
        ry.end matches Some(e) ==> end == Some(e) || (chain_live(chain, e) is Some && under_limit(
            e,
            end,
        )),
        rx.end matches Some(e) ==> bytes_lt(rx.start, e),
        ry.end matches Some(e) ==> bytes_lt(ry.start, e),
    ensures
        child_range(end, rx) == child_range(end, ry),
{
    match (rx.end, ry.end) {
        (Some(a), Some(b)) => {
            lemma_bytes_order(a, b);
            if end == Some(a) || end == Some(b) {
                lemma_bytes_irreflexive(a);
                lemma_bytes_irreflexive(b);
            }
        },
        _ => {},
    }
}

/// Telling a parent of a split keeps its chain regular.
pub proof fn law_reconciling_keeps_regular(
    chain: Seq<Page>,
    end: Option<Seq<u8>>,
    delta: Page,
    raw: Seq<u8>,
    left: Index,
    split_key: Seq<u8>,
    right: Index,
)
    requires
        regular(chain, end),
        under_limit(raw, end),
        child_at(chain, end, raw) matches Some((_, range)) && {
            &&& bytes_lt(range.start, split_key)
            &&& range.end matches Some(e) ==> bytes_lt(split_key, e)
            &&& delta.items matches Items::Indexes(v) && is_reconcile_delta(
                v@,
                range,
                left,
                split_key,
                right,
            )
        },
        delta.info.kind is Data,
        left != null_index(),
        right != null_index(),
    ensures
        regular(seq![delta] + chain, end),
        under_limit(split_key, end),
        forall|k: Seq<u8>| #[trigger]
            chain_live(seq![delta] + chain, k) is Some <==> (k == split_key || chain_live(
                chain,
                k,
            ) is Some),
{
    let after = seq![delta] + chain;
    let items = delta.items->Indexes_0@;
    let range = (child_at(chain, end, raw)->0).1;
    assert(routes(chain, end, raw));
    lemma_child_range_within(chain, end, raw);
    assert(under_limit(split_key, end)) by {
        match (range.end, end) {
            (Some(e), Some(limit)) => {
                lemma_bytes_le_lt(split_key, e, limit);
            },
            _ => {},
        }
    }
    assert forall|k: Seq<u8>|
        #![trigger chain_live(after, k)]
        chain_live(after, k) == if k == range.start {
            Some(left)
        } else if k == split_key {
            Some(right)
        } else {
            chain_live(chain, k)
        } by {
        lemma_bytes_irreflexive(split_key);
        lemma_chain_live_front(delta, chain, k);
        lemma_reconcile_live(items, range, left, split_key, right, k);
    }
    assert(chain_live(chain, range.start) is Some);
    lemma_split_key_is_new(chain, end, raw, split_key);
    assert forall|other: Seq<u8>| under_limit(other, end) implies #[trigger] routes(
        after,
        end,
        other,
    ) by {
        law_reconcile_redirects(chain, delta, range, left, split_key, right, other);
        assert(routes(chain, end, other));
        if range.contains(other) {
            lemma_halves_route(chain, after, end, raw, left, split_key, right, other);
        } else {
            lemma_others_route(chain, after, end, raw, left, split_key, right, other);
        }
    }
}

/// The range that a search takes for a child lies within that of the parent.
pub proof fn lemma_child_range_within(chain: Seq<Page>, end: Option<Seq<u8>>, raw: Seq<u8>)
    requires
        regular(chain, end),
        under_limit(raw, end),
        child_at(chain, end, raw) is Some,
    ensures
        ({
            let range = (child_at(chain, end, raw)->0).1;
            &&& range.contains(raw)
            &&& match (range.end, end) {
                (Some(e), Some(limit)) => bytes_le(e, limit),
                (None, Some(_)) => false,
                _ => true,
            }
        }),
{
    assert(routes(chain, end, raw));
}

proof fn lemma_reconcile_live(
    items: Seq<(Vec<u8>, Index)>,
    range: RangeView,
    left: Index,
    split_key: Seq<u8>,
    right: Index,
    k: Seq<u8>,
)
    requires
        is_reconcile_delta(items, range, left, split_key, right),
        left != null_index(),
        right != null_index(),
        range.start != split_key,
    ensures
        first_live(items, k) == if k == range.start {
            Some(left)
        } else if k == split_key {
            Some(right)
        } else {
            None
        },
{
    reveal_with_fuel(first_live, 4);
    if items.len() == 3 {
        assert(items.drop_last().drop_last().drop_last() =~= Seq::empty());
    } else {
        assert(items.drop_last().drop_last() =~= Seq::empty());
    }
}

proof fn lemma_split_key_is_new(
    chain: Seq<Page>,
    end: Option<Seq<u8>>,
    raw: Seq<u8>,
    split_key: Seq<u8>,
)
    requires
        regular(chain, end),
        under_limit(raw, end),
        under_limit(split_key, end),
        child_at(chain, end, raw) matches Some((_, range)) && {
            &&& bytes_lt(range.start, split_key)
            &&& range.end matches Some(e) ==> bytes_lt(split_key, e)
        },
    ensures
        chain_live(chain, split_key) is None,
{
    assert(routes(chain, end, raw));
    let range = (find_child(chain, raw)->0).1;
    if chain_live(chain, split_key) is Some {
        lemma_bytes_order(split_key, range.end->0);
    }
}

proof fn lemma_halves_route(
    chain: Seq<Page>,
    after: Seq<Page>,
    end: Option<Seq<u8>>,
    raw: Seq<u8>,
    left: Index,
    split_key: Seq<u8>,
    right: Index,
    other: Seq<u8>,
)
    requires
        regular(chain, end),
        under_limit(raw, end),
        child_at(chain, end, raw) matches Some((_, range)) && {
            &&& bytes_lt(range.start, split_key)
            &&& range.end matches Some(e) ==> bytes_lt(split_key, e)
            &&& range.contains(other)
            &&& find_child(after, other) == if bytes_lt(other, split_key) {
                Some((left, RangeView { start: range.start, end: Some(split_key) }))
            } else {
                Some((right, RangeView { start: split_key, end: range.end }))
            }
            &&& forall|k: Seq<u8>|
                #![trigger chain_live(after, k)]
                chain_live(after, k) == if k == range.start {
                    Some(left)
                } else if k == split_key {
                    Some(right)
                } else {
                    chain_live(chain, k)
                }
        },
        under_limit(split_key, end),
    ensures
        routes(after, end, other),
{
    assert(routes(chain, end, raw));
    let old = (find_child(chain, raw)->0).1;
    let range = (child_at(chain, end, raw)->0).1;
    let new = (find_child(after, other)->0).1;
    lemma_bytes_irreflexive(split_key);
    lemma_bytes_order(split_key, other);
    assert(chain_live(after, split_key) is Some);
    assert(chain_live(after, range.start) == Some(left));
    assert forall|k: Seq<u8>| #[trigger]
        chain_live(after, k) is Some && bytes_lt(new.start, k) && under_limit(k, end) implies
        new.end is Some && bytes_le(new.end->0, k) by {
        if k != split_key && k != range.start {
            assert(chain_live(chain, k) is Some);
            lemma_bytes_le_lt(range.start, new.start, k);
            if bytes_lt(other, split_key) {
                lemma_bytes_le_lt(split_key, old.end->0, k);
            }
        } else if k == range.start {
            lemma_bytes_le_lt(range.start, new.start, k);
            lemma_bytes_irreflexive(k);
        }
    }
    match new.end {
        Some(e) => {
            if e != split_key {
                assert(end == Some(e) || chain_live(chain, e) is Some);
                if end != Some(e) {
                    assert(chain_live(after, e) is Some);
                }
            }
        },
        None => {},
    }
}

proof fn lemma_others_route(
    chain: Seq<Page>,
    after: Seq<Page>,
    end: Option<Seq<u8>>,
    raw: Seq<u8>,
    left: Index,
    split_key: Seq<u8>,
    right: Index,
    other: Seq<u8>,
)
    requires
        regular(chain, end),
        under_limit(raw, end),
        under_limit(other, end),
        child_at(chain, end, raw) matches Some((_, range)) && {
            &&& bytes_lt(range.start, split_key)
            &&& range.end matches Some(e) ==> bytes_lt(split_key, e)
            &&& !range.contains(other)
            &&& find_child(after, other) == find_child(chain, other)
            &&& forall|k: Seq<u8>|
                #![trigger chain_live(after, k)]
                chain_live(after, k) == if k == range.start {
                    Some(left)
                } else if k == split_key {
                    Some(right)
                } else {
                    chain_live(chain, k)
                }
        },
        under_limit(split_key, end),
        chain_live(chain, split_key) is None,
    ensures
        routes(after, end, other),
{
    assert(routes(chain, end, raw));
    assert(routes(chain, end, other));
    let old = (find_child(chain, raw)->0).1;
    let range = (child_at(chain, end, raw)->0).1;
    assert(chain_live(chain, range.start) is Some);
    assert forall|k: Seq<u8>| chain_live(chain, k) is Some implies #[trigger] chain_live(
        after,
        k,
    ) is Some by {}
    lemma_under_limit(range.start, raw, end);
    match find_child(chain, other) {
        None => {
            assert forall|k: Seq<u8>| #[trigger] chain_live(after, k) is Some implies !bytes_le(
                k,
                other,
            ) by {
                if bytes_le(k, other) {
                    if k == split_key {
                        lemma_bytes_le_lt(range.start, split_key, other);
                        assert(bytes_le(range.start, other));
                    } else {
                        assert(chain_live(chain, k) is Some);
                    }
                }
            }
        },
        Some((index, theirs)) => {
            // The child of a key outside of the range does not begin in the range.
            assert(!range.contains(theirs.start)) by {
                if range.contains(theirs.start) {
                    lemma_bytes_order(range.start, theirs.start);
                    lemma_under_limit(theirs.start, other, end);
                    if bytes_lt(range.start, theirs.start) {
                        lemma_bytes_order(theirs.start, old.end->0);
                        assert(false);
                    } else {
                        assert((child_at(chain, end, other)->0).1.contains(other)) by {
                            lemma_child_range_within(chain, end, other);
                        }
                        lemma_same_end_range(chain, end, old, theirs, other);
                    }
                }
            }
            assert(theirs.start != split_key);
            assert(chain_live(after, theirs.start) == Some(index)) by {
                assert(range.contains(range.start)) by {
                    match range.end {
                        Some(e) => {
                            lemma_bytes_le_lt(range.start, split_key, e);
                        },
                        None => {},
                    }
                }
            }
            assert forall|k: Seq<u8>| #[trigger]
                chain_live(after, k) is Some && bytes_lt(theirs.start, k) && under_limit(
                    k,
                    end,
                ) implies theirs.end is Some && bytes_le(theirs.end->0, k) by {
                if k == split_key {
                    lemma_bytes_order(range.start, theirs.start);
                    if bytes_lt(theirs.start, range.start) {
                        lemma_bytes_le_lt(theirs.end->0, range.start, split_key);
                    } else {
                        match range.end {
                            Some(e) => {
                                lemma_bytes_le_lt(theirs.start, split_key, e);
                            },
                            None => {},
                        }
                        assert(range.contains(theirs.start));
                    }
                } else {
                    assert(chain_live(chain, k) is Some);
                }
            }
        },
    }
}

proof fn lemma_same_end_range(
    chain: Seq<Page>,
    end: Option<Seq<u8>>,
    a: RangeView,
    b: RangeView,
    raw: Seq<u8>,
)
    requires
        a.start == b.start,
        b.contains(raw),
        under_limit(raw, end),
        forall|k: Seq<u8>| #[trigger]
            chain_live(chain, k) is Some && bytes_lt(a.start, k) && under_limit(k, end)
                ==> a.end is Some && bytes_le(a.end->0, k),
        forall|k: Seq<u8>| #[trigger]
            chain_live(chain, k) is Some && bytes_lt(b.start, k) && under_limit(k, end)
                ==> b.end is Some && bytes_le(b.end->0, k),
        a.end matches Some(e) ==> end == Some(e) || (chain_live(chain, e) is Some && under_limit(
            e,
            end,
        )),
        b.end matches Some(e) ==> end == Some(e) || (chain_live(chain, e) is Some && under_limit(
            e,
            end,
        )),
        a.end matches Some(e) ==> bytes_lt(a.start, e),
    ensures
        child_range(end, a).contains(raw),
{
    match b.end {
        Some(e) => {
            lemma_bytes_le_lt(b.start, raw, e);
        },
        None => {},
    }
    lemma_same_end(chain, end, a, b);
}

/// A page that announces a split at a key where a child begins keeps the chain regular, up
/// to that key.
pub proof fn law_splitting_keeps_regular(
    chain: Seq<Page>,
    end: Option<Seq<u8>>,
    delta: Page,
    split_key: Seq<u8>,
)
    requires
        regular(chain, end),
        delta.info.kind is Split,
        chain_live(chain, split_key) is Some,
        under_limit(split_key, end),
    ensures
        regular(seq![delta] + chain, Some(split_key)),
        forall|k: Seq<u8>| #[trigger]
            chain_live(seq![delta] + chain, k) == chain_live(chain, k),
        forall|raw: Seq<u8>|
            bytes_lt(raw, split_key) ==> #[trigger] child_at(
                seq![delta] + chain,
                Some(split_key),
                raw,
            ) == child_at(chain, end, raw),
{
    let after = seq![delta] + chain;
    assert forall|k: Seq<u8>| #[trigger] chain_live(after, k) == chain_live(chain, k) by {
        lemma_chain_live_front(delta, chain, k);
    }
    assert forall|raw: Seq<u8>| bytes_lt(raw, split_key) implies routes(
        after,
        Some(split_key),
        raw,
    ) && #[trigger] child_at(after, Some(split_key), raw) == child_at(chain, end, raw) by {
        lemma_under_limit(raw, split_key, end);
        assert(routes(chain, end, raw));
        lemma_find_child_front(delta, chain, raw);
        match find_child(chain, raw) {
            Some((index, range)) => {
                lemma_bytes_le_lt(range.start, raw, split_key);
                assert(chain_live(chain, range.start) == chain_live(after, range.start));
                let e = range.end->0;
                assert(bytes_le(e, split_key));
                match end {
                    Some(limit) => {
                        lemma_bytes_le_lt(e, split_key, limit);
                        lemma_bytes_irreflexive(e);
                    },
                    None => {},
                }
                assert(chain_live(chain, e) == chain_live(after, e));
                assert forall|k: Seq<u8>| #[trigger]
                    chain_live(after, k) is Some && bytes_lt(range.start, k) && under_limit(
                        k,
                        Some(split_key),
                    ) implies range.end is Some && bytes_le(range.end->0, k) by {
                    assert(chain_live(chain, k) is Some);
                    lemma_under_limit(k, split_key, end);
                }
            },
            None => {
                assert forall|k: Seq<u8>| #[trigger] chain_live(after, k) is Some implies !bytes_le(
                    k,
                    raw,
                ) by {
                    assert(chain_live(chain, k) is Some);
                }
            },
        }
    }
    assert forall|raw: Seq<u8>| under_limit(raw, Some(split_key)) implies #[trigger] routes(
        after,
        Some(split_key),
        raw,
    ) by {
        assert(child_at(after, Some(split_key), raw) == child_at(chain, end, raw));
    }
}

/// An inner page that takes the place of its chain sends every key where the chain sent it.
pub proof fn law_consolidation_keeps_children(
    chain: Seq<Page>,
    end: Option<Seq<u8>>,
    new: Page,
    pages: Collected,
    safe_lsn: u64,
)
    requires
        chain_wf(chain),
        regular(chain, end),
        chain_limit(chain) is Some ==> chain_limit(chain) == end,
        forall|k: Seq<u8>| #[trigger]
            chain_live(chain, k) is Some && under_limit(k, chain_limit(chain)) ==> under_limit(
                k,
                end,
            ),
        pages is Indexes,
        holds(pages, chain),
        new.info.kind is Data,
        is_consolidated(new.items, pages, chain_limit(chain), safe_lsn),
    ensures
        new.items matches Items::Indexes(v) && sorted(v@) && all_live(v@),
        regular(seq![new], end),
        forall|k: Seq<u8>| #[trigger]
            chain_live(seq![new], k) == if under_limit(k, chain_limit(chain)) {
                chain_live(chain, k)
            } else {
                None
            },
        forall|raw: Seq<u8>|
            under_limit(raw, end) ==> #[trigger] child_at(seq![new], end, raw) == child_at(
                chain,
                end,
                raw,
            ),
{
    let limit = chain_limit(chain);
    let items = new.items->Indexes_0@;
    law_consolidated_children(chain, new, pages, safe_lsn, Seq::empty());
    assert forall|k: Seq<u8>| #[trigger]
        chain_live(seq![new], k) == if under_limit(k, limit) {
            chain_live(chain, k)
        } else {
            None
        } by {
        law_consolidated_children(chain, new, pages, safe_lsn, k);
        lemma_single_live(new, k);
    }
    assert forall|i: int| 0 <= i < items.len() implies under_limit(#[trigger] items[i].0@, end) by {
        lemma_live_index(items, i);
        lemma_single_live(new, items[i].0@);
        assert(chain_live(seq![new], items[i].0@) is Some);
        assert(chain_live(chain, items[i].0@) is Some);
    }
    law_whole_page_is_regular(new, end);
    assert forall|raw: Seq<u8>| under_limit(raw, end) implies #[trigger] child_at(
        seq![new],
        end,
        raw,
    ) == child_at(chain, end, raw) by {
        assert(routes(chain, end, raw));
        assert(routes(seq![new], end, raw));
        lemma_same_route(chain, seq![new], end, raw);
    }
}

/// Two regular chains with the same children send a key to the same one.
pub proof fn lemma_same_route(
    a: Seq<Page>,
    b: Seq<Page>,
    end: Option<Seq<u8>>,
    raw: Seq<u8>,
)
    requires
        under_limit(raw, end),
        routes(a, end, raw),
        routes(b, end, raw),
        forall|k: Seq<u8>|
            #![trigger chain_live(a, k)]
            #![trigger chain_live(b, k)]
            under_limit(k, end) ==> chain_live(a, k) == chain_live(b, k),
    ensures
        child_at(a, end, raw) == child_at(b, end, raw),
{
    match (find_child(a, raw), find_child(b, raw)) {
        (Some((x, rx)), Some((y, ry))) => {
            lemma_under_limit(rx.start, raw, end);
            lemma_under_limit(ry.start, raw, end);
            assert(chain_live(a, rx.start) == chain_live(b, rx.start));
            assert(chain_live(a, ry.start) == chain_live(b, ry.start));
            lemma_bytes_order(rx.start, ry.start);
            if bytes_lt(rx.start, ry.start) {
                lemma_not_between(rx.end->0, ry.start, raw);
            }
            if bytes_lt(ry.start, rx.start) {
                lemma_not_between(ry.end->0, rx.start, raw);
            }
            lemma_bytes_le_lt(rx.start, raw, rx.end->0);
            lemma_bytes_le_lt(ry.start, raw, ry.end->0);
            assert forall|k: Seq<u8>| #[trigger]
                chain_live(a, k) is Some && bytes_lt(ry.start, k) && under_limit(k, end) implies
                ry.end is Some && bytes_le(ry.end->0, k) by {
                assert(chain_live(b, k) is Some);
            }
            match ry.end {
                Some(e) => {
                    if under_limit(e, end) {
                        assert(chain_live(a, e) == chain_live(b, e));
                    }
                },
                None => {},
            }
            lemma_same_end(a, end, rx, ry);
        },
        (Some((x, rx)), None) => {
            lemma_under_limit(rx.start, raw, end);
            assert(chain_live(b, rx.start) is Some);
        },
        (None, Some((y, ry))) => {
            lemma_under_limit(ry.start, raw, end);
            assert(chain_live(a, ry.start) is Some);
        },
        (None, None) => {},
    }
}

} // verus!
