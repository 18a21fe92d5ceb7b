//! The pages of a tree as a whole, and what a search through them comes to.

use crate::bytes::{bytes_lt, lemma_bytes_le_lt, lemma_bytes_order};
use crate::laws::children::{all_live, chain_live, chain_wf};
use crate::laws::collection::{chain_limit, data_values};
use crate::laws::inner::{child_at, law_children_share_no_keys, lemma_child_range_within,
    lemma_under_limit, regular, routes};
use crate::laws::versions::descending;
use crate::lookup::{find_value, has_split_delta, split_delta};
use crate::merge::under_limit;
use crate::page::{null_index, root_index, root_range, Index, Items, Page, RangeView, ROOT_ID};
use vstd::prelude::*;

verus! {

/// What a page is there for: the keys that it is responsible for, the epoch by which its
/// parent refers to it, and its distance from the leaf pages.
pub struct Place {
    pub range: RangeView,
    pub epoch: u64,
    pub level: nat,
}

/// The chains of pages that the ids lead to, newest page first, and what they are there for.
pub struct Forest {
    pub chains: Map<u64, Seq<Page>>,
    pub places: Map<u64, Place>,
}

impl Forest {
    pub open spec fn has(self, id: u64) -> bool {
        self.chains.dom().contains(id) && self.places.dom().contains(id)
    }

    /// The newest page of the chain.
    pub open spec fn head(self, id: u64) -> Page {
        self.chains[id][0]
    }

    /// The page has been split, and its parent has not been told.
    pub open spec fn pending(self, id: u64) -> bool {
        self.head(id).info.epoch != self.places[id].epoch
    }
}

/// The keys of a leaf chain that its splits have left to it lie in the range.
pub open spec fn keys_within(chain: Seq<Page>, range: RangeView) -> bool {
    forall|p: int, j: int|
        0 <= p < data_values(chain).len() && 0 <= j < data_values(chain)[p]@.len() && under_limit(
            (#[trigger] data_values(chain)[p]@[j]).0.raw@,
            chain_limit(chain),
        ) ==> range.contains(data_values(chain)[p]@[j].0.raw@)
}

/// The children of an inner chain that its splits have left to it begin in the range, and
/// one of them begins with it.
pub open spec fn children_within(chain: Seq<Page>, range: RangeView) -> bool {
    &&& chain_live(chain, range.start) is Some
    &&& forall|k: Seq<u8>| #[trigger]
        chain_live(chain, k) is Some && under_limit(k, chain_limit(chain)) ==> range.contains(k)
}

/// The oldest page of an inner chain refers to children only.
pub open spec fn based_on_children(chain: Seq<Page>) -> bool {
    &&& chain.last().info.kind is Data
    &&& chain.last().items matches Items::Indexes(v) && all_live(v@)
}

/// All pages of the chain are of one tier.
pub open spec fn one_tier(chain: Seq<Page>, level: nat) -> bool {
    forall|i: int|
        0 <= i < chain.len() ==> ((#[trigger] chain[i]).info.tier is Leaf <==> level == 0)
}

/// At most one page of the chain announces a split.
pub open spec fn one_split(chain: Seq<Page>) -> bool {
    forall|i: int, j: int|
        0 <= i < j < chain.len() && (#[trigger] chain[i]).info.kind is Split ==> (
        #[trigger] chain[j]).info.kind is Data
}

/// The chain is fit for its place.
pub open spec fn page_ok(chain: Seq<Page>, place: Place) -> bool {
    &&& place.range.contains(place.range.start)
    &&& chain.len() > 0
    &&& chain_wf(chain)
    &&& one_tier(chain, place.level)
    &&& one_split(chain)
    &&& chain_limit(chain) is Some ==> chain_limit(chain) == place.range.end
    &&& if place.level == 0 {
        &&& descending(data_values(chain))
        &&& keys_within(chain, place.range)
    } else {
        &&& regular(chain, place.range.end)
        &&& children_within(chain, place.range)
        &&& based_on_children(chain)
    }
}

/// A data page in front announces no split.
pub proof fn lemma_one_split_front(page: Page, chain: Seq<Page>)
    requires
        page.info.kind is Data,
        one_split(chain),
    ensures
        one_split(seq![page] + chain),
{
    let all = seq![page] + chain;
    assert forall|i: int, j: int|
        0 <= i < j < all.len() && (#[trigger] all[i]).info.kind is Split implies (
    #[trigger] all[j]).info.kind is Data by {
        assert(all[j] == chain[j - 1]);
        if i > 0 {
            assert(all[i] == chain[i - 1]);
        }
    }
}

/// Where a key goes from the page that a reference leads to: it stays, unless a split that
/// the parent has not been told of has moved it.
pub open spec fn settle(f: Forest, at: (Index, RangeView), raw: Seq<u8>) -> (Index, RangeView) {
    let (index, range) = at;
    let head = f.head(index.id);
    if head.info.epoch == index.epoch {
        at
    } else {
        let (split_key, right) = split_delta(head);
        if bytes_lt(raw, split_key) {
            (
                Index { id: index.id, epoch: head.info.epoch },
                RangeView { start: range.start, end: Some(split_key) },
            )
        } else {
            (right, RangeView { start: split_key, end: range.end })
        }
    }
}

/// The reference that a search for the key follows at the level, with the range that the
/// search has for it.
pub open spec fn refer(f: Forest, height: nat, raw: Seq<u8>, level: nat) -> (Index, RangeView)
    decreases height - level,
{
    if level >= height {
        (root_index(), root_range())
    } else {
        let (index, range) = settle(f, refer(f, height, raw, level + 1), raw);
        match child_at(f.chains[index.id], range.end, raw) {
            Some(child) => child,
            None => arbitrary(),
        }
    }
}

/// The page that is responsible for the key at the level, with its range.
pub open spec fn visit(f: Forest, height: nat, raw: Seq<u8>, level: nat) -> (Index, RangeView) {
    settle(f, refer(f, height, raw, level), raw)
}

/// What a reader of the key gets.
pub open spec fn read(f: Forest, height: nat, raw: Seq<u8>, lsn: u64) -> Option<Seq<u8>> {
    find_value(f.chains[visit(f, height, raw, 0).0.id], raw, lsn)
}

/// The page that the reference leads to announces a split that its parent has not been told
/// of.
pub open spec fn split_is_pending(f: Forest, index: Index, range: RangeView) -> bool {
    let head = f.head(index.id);
    let (split_key, right) = split_delta(head);
    &&& head.info.kind is Split
    &&& head.info.epoch == index.epoch + 1
    &&& has_split_delta(head)
    &&& bytes_lt(range.start, split_key)
    &&& range.end matches Some(end) ==> bytes_lt(split_key, end)
    &&& right.epoch == 0
    &&& right != null_index()
    &&& right.id != index.id
    &&& f.has(right.id)
    &&& f.places[right.id].epoch == 0
    &&& f.head(right.id).info.epoch == 0
}

/// A search for the key comes to the page that is responsible for it at the level.
pub open spec fn path_ok(f: Forest, height: nat, raw: Seq<u8>, level: nat) -> bool {
    let (index, range) = refer(f, height, raw, level);
    let (at, at_range) = visit(f, height, raw, level);
    &&& f.has(index.id)
    &&& f.places[index.id].epoch == index.epoch
    &&& range.contains(raw)
    &&& f.head(index.id).info.epoch == index.epoch || split_is_pending(f, index, range)
    &&& f.has(at.id)
    &&& f.head(at.id).info.epoch == at.epoch
    &&& f.places[at.id].range == at_range
    &&& f.places[at.id].level == level
}

/// The pages form a tree of the height. The root has no parent that could be told of a split,
/// so its epoch stays what it was.
pub open spec fn tree_ok(f: Forest, height: nat) -> bool {
    &&& f.head(ROOT_ID).info.epoch == 0
    &&& forall|id: u64| #[trigger] f.has(id) ==> page_ok(f.chains[id], f.places[id])
    &&& forall|raw: Seq<u8>, level: nat|
        level <= height ==> #[trigger] path_ok(f, height, raw, level)
}

/// A search for the key comes to the page at the level without a conflict.
pub open spec fn found(f: Forest, height: nat, raw: Seq<u8>, level: nat, id: u64) -> bool {
    let index = refer(f, height, raw, level).0;
    index.id == id && index.epoch == f.head(id).info.epoch
}

/// The page that a search comes to is responsible for the key.
pub proof fn lemma_visited(f: Forest, height: nat, raw: Seq<u8>, level: nat)
    requires
        tree_ok(f, height),
        level <= height,
    ensures
        ({
            let (index, range) = refer(f, height, raw, level);
            let (at, at_range) = visit(f, height, raw, level);
            &&& f.has(index.id)
            &&& f.has(at.id)
            &&& page_ok(f.chains[at.id], f.places[at.id])
            &&& f.places[at.id].range == at_range
            &&& f.places[at.id].level == level
            &&& at_range.contains(raw)
            &&& forall|other: Seq<u8>| #[trigger]
                at_range.contains(other) ==> range.contains(other) && settle(
                    f,
                    (index, range),
                    other,
                ) == (at, at_range)
        }),
{
    assert(path_ok(f, height, raw, level));
    let (index, range) = refer(f, height, raw, level);
    let (at, at_range) = visit(f, height, raw, level);
    if f.head(index.id).info.epoch != index.epoch {
        let split_key = split_delta(f.head(index.id)).0;
        lemma_bytes_order(split_key, raw);
        assert forall|other: Seq<u8>| #[trigger] at_range.contains(other) implies range.contains(
            other,
        ) && settle(f, (index, range), other) == (at, at_range) by {
            lemma_bytes_order(split_key, other);
            lemma_bytes_le_lt(range.start, split_key, other);
            match range.end {
                Some(end) => {
                    lemma_bytes_le_lt(other, split_key, end);
                },
                None => {},
            }
        }
    }
}

/// The split key that is met first in a chain is the smallest, for no other is met.
pub proof fn law_chain_announces_one_split(f: Forest, height: nat, id: u64, i: int, j: int)
    requires
        tree_ok(f, height),
        f.has(id),
        0 <= i < f.chains[id].len(),
        0 <= j < f.chains[id].len(),
        f.chains[id][i].info.kind is Split,
        f.chains[id][j].info.kind is Split,
    ensures
        i == j,
{
    assert(page_ok(f.chains[id], f.places[id]));
}

/// The child that an inner page names for a key of its range.
pub proof fn lemma_child_of(chain: Seq<Page>, place: Place, raw: Seq<u8>)
    requires
        page_ok(chain, place),
        place.level > 0,
        place.range.contains(raw),
    ensures
        child_at(chain, place.range.end, raw) matches Some((_, range)) && {
            &&& range.contains(raw)
            &&& forall|other: Seq<u8>| #[trigger]
                range.contains(other) ==> place.range.contains(other) && child_at(
                    chain,
                    place.range.end,
                    other,
                ) == child_at(chain, place.range.end, raw)
        },
{
    let end = place.range.end;
    assert(under_limit(raw, end));
    assert(routes(chain, end, raw));
    assert(chain_live(chain, place.range.start) is Some);
    lemma_child_range_within(chain, end, raw);
    let range = (child_at(chain, end, raw)->0).1;
    lemma_under_limit(range.start, raw, end);
    assert(under_limit(range.start, chain_limit(chain)));
    assert(chain_live(chain, range.start) is Some);
    assert(place.range.contains(range.start));
    assert forall|other: Seq<u8>| #[trigger] range.contains(other) implies place.range.contains(
        other,
    ) && child_at(chain, end, other) == child_at(chain, end, raw) by {
        law_children_share_no_keys(chain, end, raw, other);
        lemma_bytes_le_lt(place.range.start, range.start, other);
    }
}

/// The root is responsible for all keys at the highest level.
pub proof fn law_root_is_responsible_for_all_keys(f: Forest, height: nat, raw: Seq<u8>)
    requires
        tree_ok(f, height),
    ensures
        f.has(ROOT_ID),
        !f.pending(ROOT_ID),
        f.places[ROOT_ID] == (Place { range: root_range(), epoch: 0, level: height }),
        visit(f, height, raw, height) == (root_index(), root_range()),
        found(f, height, raw, height, ROOT_ID),
        page_ok(f.chains[ROOT_ID], f.places[ROOT_ID]),
{
    assert(path_ok(f, height, raw, height));
    lemma_visited(f, height, raw, height);
}

/// Keys of one page's range lead to that page.
pub proof fn law_a_range_leads_to_one_page(
    f: Forest,
    height: nat,
    a: Seq<u8>,
    b: Seq<u8>,
    level: nat,
)
    requires
        tree_ok(f, height),
        level <= height,
    ensures
        refer(f, height, a, level).1.contains(b) ==> refer(f, height, b, level) == refer(
            f,
            height,
            a,
            level,
        ),
        visit(f, height, a, level).1.contains(b) ==> refer(f, height, b, level) == refer(
            f,
            height,
            a,
            level,
        ) && visit(f, height, b, level) == visit(f, height, a, level),
    decreases height - level,
{
    if level < height {
        lemma_visited(f, height, a, level + 1);
        let at = visit(f, height, a, level + 1).0;
        lemma_child_of(f.chains[at.id], f.places[at.id], a);
        if refer(f, height, a, level).1.contains(b) {
            law_a_range_leads_to_one_page(f, height, a, b, level + 1);
        }
    }
    lemma_visited(f, height, a, level);
    if visit(f, height, a, level).1.contains(b) {
        assert(refer(f, height, a, level).1.contains(b));
        if level < height {
            law_a_range_leads_to_one_page(f, height, a, b, level + 1);
        }
    }
}

/// Whoever visits a page that a search comes to without a conflict is led there by the same
/// reference.
pub proof fn lemma_found_is_referred(
    f: Forest,
    height: nat,
    raw: Seq<u8>,
    level: nat,
    id: u64,
    other: Seq<u8>,
    other_level: nat,
)
    requires
        tree_ok(f, height),
        level <= height,
        other_level <= height,
        found(f, height, raw, level, id),
        visit(f, height, other, other_level).0.id == id,
    ensures
        other_level == level,
        refer(f, height, other, level) == refer(f, height, raw, level),
        visit(f, height, other, level) == visit(f, height, raw, level),
{
    lemma_visited(f, height, raw, level);
    lemma_visited(f, height, other, other_level);
    assert(visit(f, height, raw, level) == refer(f, height, raw, level));
    law_a_range_leads_to_one_page(f, height, raw, other, level);
}

} // verus!
