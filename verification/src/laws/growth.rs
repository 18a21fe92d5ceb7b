//! How the tree grows: pages that part, parents that are told of it, and new roots.

use crate::bytes::{bytes_lt, lemma_bytes_irreflexive, lemma_bytes_le_lt, lemma_bytes_order};
use crate::laws::children::{chain_live, chain_wf};
use crate::laws::collection::chain_limit;
use crate::laws::delta::{draft_of, law_reconcile_redirects, law_split_delta_is_silent,
    lemma_reconcile_delta_sorted};
use crate::laws::exchange::{exchanged, lemma_chain_limit_front};
use crate::laws::forest::{children_within, found, law_a_range_leads_to_one_page,
    law_root_is_responsible_for_all_keys, lemma_child_of, lemma_found_is_referred,
    lemma_one_split_front, lemma_visited, one_tier, page_ok, path_ok, read, refer,
    split_is_pending, tree_ok, visit, Forest, Place};
use crate::laws::halves::law_right_half_says_the_same;
use crate::laws::inner::{child_at, law_reconciling_keeps_regular, lemma_child_range_within};
use crate::laws::parting::{left_place, lemma_left_ok, lemma_right_ok, lemma_split_key_within,
    parts_at, right_place};
use crate::lookup::{find_value, page_value, split_delta};
use crate::merge::{is_part, split_index, under_limit};
use crate::page::{null_index, Index, Items, Page, RangeView, NAN_ID, ROOT_ID};
use crate::reconcile::is_reconcile_delta;
use crate::split::is_split_draft;
use vstd::prelude::*;

verus! {

/// The forest once the page has parted: the right half has a page of its own, and the page
/// announces the split.
pub open spec fn parted(f: Forest, id: u64, delta: Page, right_id: u64, right: Page) -> Forest {
    let split_key = split_delta(delta).0;
    Forest {
        chains: f.chains.insert(right_id, seq![right]).insert(id, seq![delta] + f.chains[id]),
        places: f.places.insert(right_id, right_place(f.places[id], split_key)).insert(
            id,
            left_place(f.places[id], split_key),
        ),
    }
}

/// A page below the root, to which a search for `key` comes, parts at the item `i`.
pub open spec fn parts(
    f: Forest,
    height: nat,
    key: Seq<u8>,
    level: nat,
    id: u64,
    i: int,
    delta: Page,
    right_id: u64,
    right: Page,
) -> bool {
    let page = f.head(id);
    &&& tree_ok(f, height)
    &&& level < height
    &&& found(f, height, key, level, id)
    &&& f.chains[id] == seq![page]
    &&& page.info.kind is Data
    &&& split_index(page.items) == Some(i)
    &&& right_id != NAN_ID
    &&& !f.has(right_id)
    &&& right.info.tier == page.info.tier
    &&& right.info.kind is Data
    &&& right.info.epoch == 0
    &&& is_part(right.items, page.items, i, page.items.count() as int)
    &&& is_split_draft(draft_of(delta), page.info.tier, page.items.raw(i), right_id)
    &&& delta.info.epoch == page.info.epoch + 1
}

/// What is known of the page that parts.
proof fn lemma_parting_page(
    f: Forest,
    height: nat,
    key: Seq<u8>,
    level: nat,
    id: u64,
    i: int,
    delta: Page,
    right_id: u64,
    right: Page,
)
    requires
        parts(f, height, key, level, id, i, delta, right_id, right),
    ensures
        f.has(id),
        !f.pending(id),
        f.places[id].level == level,
        f.places[id].range == refer(f, height, key, level).1,
        parts_at(f.head(id), f.places[id], i),
        split_delta(delta) == (f.head(id).items.raw(i), Index { id: right_id, epoch: 0 }),
        visit(f, height, key, level) == refer(f, height, key, level),
{
    lemma_visited(f, height, key, level);
    assert(path_ok(f, height, key, level));
}

/// Parting leaves every reference that a search follows as it was; only from the page that
/// parts on, the keys go to its two halves.
pub proof fn law_parting_keeps_searches(
    f: Forest,
    height: nat,
    key: Seq<u8>,
    level: nat,
    id: u64,
    i: int,
    delta: Page,
    right_id: u64,
    right: Page,
    raw: Seq<u8>,
    at: nat,
)
    requires
        parts(f, height, key, level, id, i, delta, right_id, right),
        at <= height,
    ensures
        ({
            let g = parted(f, id, delta, right_id, right);
            let split_key = split_delta(delta).0;
            &&& refer(g, height, raw, at) == refer(f, height, raw, at)
            &&& visit(g, height, raw, at) == if visit(f, height, raw, at).0.id != id {
                visit(f, height, raw, at)
            } else if bytes_lt(raw, split_key) {
                (
                    Index { id, epoch: delta.info.epoch },
                    left_place(f.places[id], split_key).range,
                )
            } else {
                (
                    Index { id: right_id, epoch: 0 },
                    right_place(f.places[id], split_key).range,
                )
            }
            &&& path_ok(g, height, raw, at)
        }),
    decreases height - at,
{
    let g = parted(f, id, delta, right_id, right);
    let split_key = split_delta(delta).0;
    let page = f.head(id);
    let place = f.places[id];
    lemma_parting_page(f, height, key, level, id, i, delta, right_id, right);
    lemma_split_key_within(page, place, i);
    if at < height {
        law_parting_keeps_searches(
            f,
            height,
            key,
            level,
            id,
            i,
            delta,
            right_id,
            right,
            raw,
            at + 1,
        );
        lemma_visited(f, height, raw, at + 1);
        if visit(f, height, raw, at + 1).0.id == id {
            lemma_found_is_referred(f, height, key, level, id, raw, at + 1);
            lemma_left_ok(page, place, i, delta, right_id);
            lemma_right_ok(page, place, i, right);
            lemma_bytes_order(split_key, raw);
            assert(g.chains[id] == seq![delta] + seq![page]);
            if bytes_lt(raw, split_key) {
                assert(child_at(g.chains[id], Some(split_key), raw) == child_at(
                    f.chains[id],
                    place.range.end,
                    raw,
                ));
            } else {
                assert(child_at(g.chains[right_id], place.range.end, raw) == child_at(
                    f.chains[id],
                    place.range.end,
                    raw,
                ));
            }
        }
    }
    assert(path_ok(f, height, raw, at));
    let (index, range) = refer(f, height, raw, at);
    assert(index.id != right_id);
    if index.id == id {
        assert(visit(f, height, raw, at) == (index, range));
        lemma_found_is_referred(f, height, key, level, id, raw, at);
        assert(g.head(id) == delta);
        assert(g.head(right_id) == right);
        assert(split_is_pending(g, index, range));
    } else {
        assert(g.head(index.id) == f.head(index.id));
        if f.head(index.id).info.epoch != index.epoch {
            let (their_key, their_right) = split_delta(f.head(index.id));
            // The page that parts is not one that its parent has not been told of.
            assert(their_right.id != id) by {
                if their_right.id == id {
                    lemma_bytes_irreflexive(their_key);
                    assert(range.contains(their_key));
                    law_a_range_leads_to_one_page(f, height, raw, their_key, at);
                    assert(visit(f, height, their_key, at).0.id == id);
                    lemma_found_is_referred(f, height, key, level, id, their_key, at);
                }
            }
            assert(split_is_pending(g, index, range));
        }
    }
}

/// Once a page has parted, the pages still form a tree, and every read gets what it got
/// before.
pub proof fn law_parting_changes_no_read(
    f: Forest,
    height: nat,
    key: Seq<u8>,
    level: nat,
    id: u64,
    i: int,
    delta: Page,
    right_id: u64,
    right: Page,
    raw: Seq<u8>,
    lsn: u64,
)
    requires
        parts(f, height, key, level, id, i, delta, right_id, right),
    ensures
        ({
            let g = parted(f, id, delta, right_id, right);
            &&& tree_ok(g, height)
            &&& read(g, height, raw, lsn) == read(f, height, raw, lsn)
        }),
{
    let g = parted(f, id, delta, right_id, right);
    let page = f.head(id);
    let split_key = split_delta(delta).0;
    lemma_parting_page(f, height, key, level, id, i, delta, right_id, right);
    law_root_is_responsible_for_all_keys(f, height, key);
    assert(id != ROOT_ID && right_id != ROOT_ID);
    assert forall|other: u64| #[trigger] g.has(other) implies page_ok(
        g.chains[other],
        g.places[other],
    ) by {
        if other == id {
            lemma_left_ok(page, f.places[id], i, delta, right_id);
        } else if other == right_id {
            lemma_right_ok(page, f.places[id], i, right);
        } else {
            assert(f.has(other));
        }
    }
    assert forall|other: Seq<u8>, at: nat| at <= height implies #[trigger] path_ok(
        g,
        height,
        other,
        at,
    ) by {
        law_parting_keeps_searches(
            f,
            height,
            key,
            level,
            id,
            i,
            delta,
            right_id,
            right,
            other,
            at,
        );
    }
    law_parting_keeps_searches(f, height, key, level, id, i, delta, right_id, right, raw, 0);
    lemma_visited(f, height, raw, 0);
    if visit(f, height, raw, 0).0.id == id {
        lemma_found_is_referred(f, height, key, level, id, raw, 0);
        law_split_delta_is_silent(f.chains[id], delta, split_key, right_id, raw, lsn);
        lemma_bytes_order(split_key, raw);
        if !bytes_lt(raw, split_key) {
            assert(seq![page][0] == page);
            law_right_half_says_the_same(page, right, i, raw, lsn);
            lemma_read_alone(page, raw, lsn);
            lemma_read_alone(right, raw, lsn);
        }
    }
}

pub proof fn lemma_read_alone(page: Page, raw: Seq<u8>, lsn: u64)
    ensures
        find_value(seq![page], raw, lsn) == match page_value(page, raw, lsn) {
            Some(value) => value,
            None => None,
        },
{
    assert(seq![page].drop_first() =~= Seq::<Page>::empty());
    reveal_with_fuel(find_value, 2);
}

/// The forest once the parent has been told of the split of its child.
pub open spec fn told(f: Forest, parent_id: u64, child_id: u64, delta: Page) -> Forest {
    Forest {
        chains: f.chains.insert(parent_id, seq![delta] + f.chains[parent_id]),
        places: f.places.insert(
            child_id,
            Place { epoch: f.head(child_id).info.epoch, ..f.places[child_id] },
        ),
    }
}

/// A search for `key` comes to the parent without a conflict, and finds that the child has
/// been split; the parent is told of it.
pub open spec fn tells(
    f: Forest,
    height: nat,
    key: Seq<u8>,
    level: nat,
    parent_id: u64,
    child_id: u64,
    delta: Page,
) -> bool {
    let (index, range) = refer(f, height, key, level);
    let (split_key, right) = split_delta(f.head(child_id));
    &&& tree_ok(f, height)
    &&& level < height
    &&& found(f, height, key, level + 1, parent_id)
    &&& index.id == child_id
    &&& f.head(child_id).info.epoch != index.epoch
    &&& delta.info.tier is Inner
    &&& delta.info.kind is Data
    &&& delta.info.epoch == f.head(parent_id).info.epoch
    &&& delta.items matches Items::Indexes(v) && is_reconcile_delta(
        v@,
        range,
        Index { id: child_id, epoch: f.head(child_id).info.epoch },
        split_key,
        right,
    )
}

/// What is known of a parent and its child before the parent is told.
proof fn lemma_telling(
    f: Forest,
    height: nat,
    key: Seq<u8>,
    level: nat,
    parent_id: u64,
    child_id: u64,
    delta: Page,
)
    requires
        tells(f, height, key, level, parent_id, child_id, delta),
    ensures
        ({
            let (index, range) = refer(f, height, key, level);
            let (split_key, right) = split_delta(f.head(child_id));
            let place = f.places[parent_id];
            &&& f.has(parent_id)
            &&& f.has(child_id)
            &&& !f.pending(parent_id)
            &&& page_ok(f.chains[parent_id], place)
            &&& place.level == level + 1
            &&& place.range == visit(f, height, key, level + 1).1
            &&& place.range.contains(key)
            &&& child_at(f.chains[parent_id], place.range.end, key) == Some((index, range))
            &&& split_is_pending(f, index, range)
            &&& f.places[child_id].epoch == index.epoch
            &&& f.places[child_id].level == level
            &&& f.places[child_id].range == (RangeView {
                start: range.start,
                end: Some(split_key),
            })
            &&& f.places[right.id].level == level
            &&& f.places[right.id].range == (RangeView { start: split_key, end: range.end })
            &&& range.contains(range.start)
            &&& range.contains(split_key)
        }),
{
    let range = refer(f, height, key, level).1;
    let split_key = split_delta(f.head(child_id)).0;
    lemma_visited(f, height, key, level + 1);
    assert(path_ok(f, height, key, level + 1));
    assert(path_ok(f, height, key, level));
    lemma_child_of(f.chains[parent_id], f.places[parent_id], key);
    lemma_bytes_irreflexive(split_key);
    match range.end {
        Some(end) => {
            lemma_bytes_le_lt(range.start, split_key, end);
        },
        None => {},
    }
    assert(range.contains(range.start));
    assert(range.contains(split_key));
    law_a_range_leads_to_one_page(f, height, key, range.start, level);
    law_a_range_leads_to_one_page(f, height, key, split_key, level);
    assert(path_ok(f, height, range.start, level));
    assert(path_ok(f, height, split_key, level));
}

/// A parent that has been told of a split is fit for its place.
proof fn lemma_told_ok(
    chain: Seq<Page>,
    place: Place,
    key: Seq<u8>,
    delta: Page,
    left: Index,
    split_key: Seq<u8>,
    right: Index,
)
    requires
        page_ok(chain, place),
        place.level > 0,
        place.range.contains(key),
        delta.info.tier is Inner,
        delta.info.kind is Data,
        child_at(chain, place.range.end, key) matches Some((_, range)) && {
            &&& bytes_lt(range.start, split_key)
            &&& range.end matches Some(e) ==> bytes_lt(split_key, e)
            &&& delta.items matches Items::Indexes(v) && is_reconcile_delta(
                v@,
                range,
                left,
                split_key,
                right,
            )
        },
        left != null_index(),
        right != null_index(),
    ensures
        page_ok(seq![delta] + chain, place),
{
    let all = seq![delta] + chain;
    let end = place.range.end;
    let range = (child_at(chain, end, key)->0).1;
    lemma_reconcile_delta_sorted(delta.items->Indexes_0@, range, left, split_key, right);
    assert(delta.wf());
    assert(chain_wf(all)) by {
        assert forall|i: int| 0 <= i < all.len() implies (#[trigger] all[i]).wf() by {
            if i > 0 {
                assert(all[i] == chain[i - 1]);
            }
        }
    }
    assert(one_tier(all, place.level)) by {
        assert forall|i: int| 0 <= i < all.len() implies ((#[trigger] all[i]).info.tier is Leaf
            <==> place.level == 0) by {
            if i > 0 {
                assert(all[i] == chain[i - 1]);
            }
        }
    }
    lemma_one_split_front(delta, chain);
    lemma_chain_limit_front(delta, chain);
    law_reconciling_keeps_regular(chain, end, delta, key, left, split_key, right);
    lemma_child_of(chain, place, key);
    assert(range.contains(split_key));
    assert(place.range.contains(split_key));
    assert(children_within(all, place.range)) by {
        assert(chain_live(all, place.range.start) is Some);
        assert forall|k: Seq<u8>| #[trigger]
            chain_live(all, k) is Some && under_limit(k, chain_limit(all)) implies
            place.range.contains(k) by {
            if k != split_key {
                assert(chain_live(chain, k) is Some);
            }
        }
    }
    assert(all.last() == chain.last());
}

/// Telling a parent of a split leaves every key with the page that is responsible for it.
pub proof fn law_telling_keeps_searches(
    f: Forest,
    height: nat,
    key: Seq<u8>,
    level: nat,
    parent_id: u64,
    child_id: u64,
    delta: Page,
    raw: Seq<u8>,
    at: nat,
)
    requires
        tells(f, height, key, level, parent_id, child_id, delta),
        at <= height,
    ensures
        ({
            let g = told(f, parent_id, child_id, delta);
            &&& visit(g, height, raw, at) == visit(f, height, raw, at)
            &&& refer(g, height, raw, at) == if at == level && refer(
                f,
                height,
                key,
                level,
            ).1.contains(raw) {
                visit(f, height, raw, at)
            } else {
                refer(f, height, raw, at)
            }
            &&& path_ok(g, height, raw, at)
        }),
    decreases height - at,
{
    let g = told(f, parent_id, child_id, delta);
    let range = refer(f, height, key, level).1;
    let (split_key, right) = split_delta(f.head(child_id));
    let left = Index { id: child_id, epoch: f.head(child_id).info.epoch };
    let place = f.places[parent_id];
    let halves = at == level && range.contains(raw);
    lemma_telling(f, height, key, level, parent_id, child_id, delta);
    lemma_bytes_order(split_key, raw);
    if halves {
        law_a_range_leads_to_one_page(f, height, key, raw, level);
        lemma_child_of(f.chains[parent_id], place, key);
        law_a_range_leads_to_one_page(f, height, key, raw, level + 1);
    }
    assert(path_ok(f, height, raw, at));
    if at < height {
        law_telling_keeps_searches(
            f,
            height,
            key,
            level,
            parent_id,
            child_id,
            delta,
            raw,
            at + 1,
        );
        lemma_visited(f, height, raw, at + 1);
        let above = visit(f, height, raw, at + 1).0;
        if above.id == parent_id {
            law_reconcile_redirects(
                f.chains[parent_id],
                delta,
                range,
                left,
                split_key,
                right,
                raw,
            );
            assert(place.range.contains(key));
            assert(under_limit(key, place.range.end));
            lemma_child_range_within(f.chains[parent_id], place.range.end, key);
        } else {
            assert(g.chains[above.id] == f.chains[above.id]);
        }
    }
    let (to, to_range) = refer(f, height, raw, at);
    if !halves {
        assert(to.id != child_id) by {
            if to.id == child_id {
                assert(f.head(child_id).info.epoch != to.epoch);
                lemma_bytes_le_lt(raw, split_key, range.end->0);
                lemma_bytes_le_lt(range.start, split_key, raw);
                assert(range.contains(raw));
            }
        }
        if to.id == parent_id {
            assert(f.head(parent_id).info.epoch == to.epoch);
            assert(g.head(parent_id) == delta);
        } else {
            assert(g.head(to.id) == f.head(to.id));
            if f.head(to.id).info.epoch != to.epoch {
                assert(split_is_pending(f, to, to_range));
                assert(split_is_pending(g, to, to_range));
            }
        }
    } else {
        assert(g.head(child_id) == f.head(child_id));
    }
}

/// Once a parent has been told of a split, the pages still form a tree, every read gets what
/// it got before, and the search for the key no longer meets the conflict.
pub proof fn law_telling_changes_no_read(
    f: Forest,
    height: nat,
    key: Seq<u8>,
    level: nat,
    parent_id: u64,
    child_id: u64,
    delta: Page,
    raw: Seq<u8>,
    lsn: u64,
)
    requires
        tells(f, height, key, level, parent_id, child_id, delta),
    ensures
        ({
            let g = told(f, parent_id, child_id, delta);
            &&& tree_ok(g, height)
            &&& read(g, height, raw, lsn) == read(f, height, raw, lsn)
            &&& !g.pending(child_id)
            &&& found(g, height, key, level, visit(g, height, key, level).0.id)
        }),
{
    let g = told(f, parent_id, child_id, delta);
    let (split_key, right) = split_delta(f.head(child_id));
    let left = Index { id: child_id, epoch: f.head(child_id).info.epoch };
    lemma_telling(f, height, key, level, parent_id, child_id, delta);
    assert forall|other: u64| #[trigger] g.has(other) implies page_ok(
        g.chains[other],
        g.places[other],
    ) by {
        assert(f.has(other));
        if other == parent_id {
            lemma_told_ok(
                f.chains[parent_id],
                f.places[parent_id],
                key,
                delta,
                left,
                split_key,
                right,
            );
        }
    }
    assert forall|other: Seq<u8>, at: nat| at <= height implies #[trigger] path_ok(
        g,
        height,
        other,
        at,
    ) by {
        law_telling_keeps_searches(
            f,
            height,
            key,
            level,
            parent_id,
            child_id,
            delta,
            other,
            at,
        );
    }
    law_telling_keeps_searches(f, height, key, level, parent_id, child_id, delta, raw, 0);
    law_telling_keeps_searches(f, height, key, level, parent_id, child_id, delta, key, level);
    lemma_visited(f, height, raw, 0);
    assert(path_ok(f, height, key, level));
    assert(path_ok(g, height, key, level));
}

/// A page whose epoch is what it was is responsible for the keys that it was responsible for:
/// only a page that parts gives keys away, and its epoch tells of it.
pub proof fn law_epoch_tells_of_a_change_of_range(
    f: Forest,
    id: u64,
    delta: Page,
    right_id: u64,
    right: Page,
    chain: Seq<Page>,
    child_id: u64,
    other: u64,
)
    requires
        f.has(other),
        !f.has(right_id),
        delta.info.epoch == f.head(id).info.epoch + 1,
    ensures
        ({
            let g = parted(f, id, delta, right_id, right);
            g.head(other).info.epoch == f.head(other).info.epoch ==> g.places[other].range
                == f.places[other].range
        }),
        exchanged(f, id, chain).places[other].range == f.places[other].range,
        told(f, id, child_id, delta).places[other].range == f.places[other].range,
{
    let g = parted(f, id, delta, right_id, right);
    assert(other != right_id);
    if other == id {
        assert(g.head(id) == delta);
    }
}

} // verus!
