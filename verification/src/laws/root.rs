//! The first root, and new roots above it.

use crate::bytes::{bytes_lt, lemma_bytes_order};
use crate::init::is_empty_leaf;
use crate::laws::children::{all_live, chain_live, chain_wf, lemma_live_index};
use crate::laws::collection::chain_limit;
use crate::laws::delta::{draft_of, law_root_split_redirects};
use crate::laws::forest::{children_within, law_root_is_responsible_for_all_keys, lemma_visited,
    page_ok, path_ok, read, refer, split_is_pending, tree_ok, visit, Forest, Place};
use crate::laws::growth::lemma_read_alone;
use crate::laws::halves::{law_left_half_says_the_same, law_right_half_says_the_same,
    law_split_key_is_not_empty};
use crate::laws::inner::{child_at, law_whole_page_is_regular, lemma_single_live};
use crate::laws::parting::{left_place, lemma_alone, lemma_left_alone_ok, lemma_right_ok,
    lemma_split_key_within, parts_at, right_place};
use crate::lookup::is_visible;
use crate::merge::{is_part, split_index, under_limit};
use crate::page::{position_lt, root_range, sorted, Index, Page, SortedPageKey, NAN_ID, ROOT_ID};
use crate::split::is_root_draft;
use vstd::prelude::*;

verus! {

/// The forest of a tree that has just been initialized.
pub open spec fn first_forest(root: Page) -> Forest {
    Forest {
        chains: map![ROOT_ID => seq![root]],
        places: map![ROOT_ID => Place { range: root_range(), epoch: 0, level: 0 }],
    }
}

/// The empty root of a new tree is a tree, and nothing can be read from it.
pub proof fn law_first_root_is_a_tree(root: Page, raw: Seq<u8>, lsn: u64)
    requires
        is_empty_leaf(draft_of(root)),
        root.info.epoch == 0,
    ensures
        tree_ok(first_forest(root), 0),
        read(first_forest(root), 0, raw, lsn) is None,
{
    let f = first_forest(root);
    lemma_alone(root);
    assert(root.wf());
    assert(f.chains[ROOT_ID] == seq![root]);
    assert(chain_wf(seq![root]));
    assert(page_ok(f.chains[ROOT_ID], f.places[ROOT_ID]));
    assert forall|other: Seq<u8>, level: nat| level <= 0 implies #[trigger] path_ok(
        f,
        0,
        other,
        level,
    ) by {
        lemma_bytes_order(Seq::<u8>::empty(), other);
    }
    lemma_read_alone(root, raw, lsn);
    let items = root.items->Values_0@;
    assert forall|i: int| !is_visible(items, raw, lsn, i) by {}
}

/// The forest once the root has parted: both halves have pages of their own, below a new
/// root.
pub open spec fn raised(
    f: Forest,
    height: nat,
    split_key: Seq<u8>,
    left_id: u64,
    left: Page,
    right_id: u64,
    right: Page,
    root: Page,
) -> Forest {
    let place = f.places[ROOT_ID];
    Forest {
        chains: f.chains.insert(left_id, seq![left]).insert(right_id, seq![right]).insert(
            ROOT_ID,
            seq![root],
        ),
        places: f.places.insert(left_id, left_place(place, split_key)).insert(
            right_id,
            right_place(place, split_key),
        ).insert(ROOT_ID, Place { level: height + 1, ..place }),
    }
}

/// The root, which stands alone, parts at the item `i`.
pub open spec fn root_parts(
    f: Forest,
    height: nat,
    i: int,
    left_id: u64,
    left: Page,
    right_id: u64,
    right: Page,
    root: Page,
) -> bool {
    let page = f.head(ROOT_ID);
    &&& tree_ok(f, height)
    &&& f.chains[ROOT_ID] == seq![page]
    &&& page.info.kind is Data
    &&& split_index(page.items) == Some(i)
    &&& left_id != NAN_ID
    &&& right_id != NAN_ID
    &&& left_id != right_id
    &&& !f.has(left_id)
    &&& !f.has(right_id)
    &&& left.info.tier == page.info.tier
    &&& left.info.kind is Data
    &&& left.info.epoch == 0
    &&& is_part(left.items, page.items, 0, i)
    &&& right.info.tier == page.info.tier
    &&& right.info.kind is Data
    &&& right.info.epoch == 0
    &&& is_part(right.items, page.items, i, page.items.count() as int)
    &&& is_root_draft(draft_of(root), left_id, page.items.raw(i), right_id)
    &&& root.info.epoch == 0
}

/// A root over two pages is fit for its place.
proof fn lemma_new_root_ok(root: Page, left_id: u64, split_key: Seq<u8>, right_id: u64, level: nat)
    requires
        is_root_draft(draft_of(root), left_id, split_key, right_id),
        split_key.len() > 0,
        left_id != NAN_ID,
        right_id != NAN_ID,
        level > 0,
    ensures
        page_ok(seq![root], Place { range: root_range(), epoch: 0, level }),
{
    let chain = seq![root];
    let items = root.items->Indexes_0@;
    lemma_alone(root);
    assert(sorted(items)) by {
        assert forall|i: int, j: int| 0 <= i < j < items.len() implies position_lt(
            #[trigger] items[i].0.position(),
            #[trigger] items[j].0.position(),
        ) by {
            assert(i == 0 && j == 1);
        }
    }
    assert(root.wf());
    assert(chain_wf(chain));
    assert(all_live(items));
    law_whole_page_is_regular(root, None);
    assert(children_within(chain, root_range())) by {
        lemma_live_index(items, 0);
        lemma_single_live(root, items[0].0@);
        assert forall|k: Seq<u8>| #[trigger]
            chain_live(chain, k) is Some && under_limit(k, chain_limit(chain)) implies
            root_range().contains(k) by {
            lemma_bytes_order(Seq::<u8>::empty(), k);
        }
    }
    assert(chain.last() == root);
}

/// Below the new root every search goes on as it went on from the old one.
pub proof fn law_new_root_keeps_searches(
    f: Forest,
    height: nat,
    i: int,
    left_id: u64,
    left: Page,
    right_id: u64,
    right: Page,
    root: Page,
    raw: Seq<u8>,
    at: nat,
)
    requires
        root_parts(f, height, i, left_id, left, right_id, right, root),
        at <= height + 1,
    ensures
        ({
            let split_key = f.head(ROOT_ID).items.raw(i);
            let g = raised(f, height, split_key, left_id, left, right_id, right, root);
            &&& visit(g, height + 1, raw, at) == refer(g, height + 1, raw, at) || at < height
            &&& at < height ==> refer(g, height + 1, raw, at) == refer(f, height, raw, at)
                && visit(g, height + 1, raw, at) == visit(f, height, raw, at) && visit(
                f,
                height,
                raw,
                at,
            ).0.id != ROOT_ID
            &&& at == height ==> visit(g, height + 1, raw, at) == if bytes_lt(raw, split_key) {
                (Index { id: left_id, epoch: 0 }, g.places[left_id].range)
            } else {
                (Index { id: right_id, epoch: 0 }, g.places[right_id].range)
            }
            &&& path_ok(g, height + 1, raw, at)
        }),
    decreases height + 1 - at,
{
    let page = f.head(ROOT_ID);
    let split_key = page.items.raw(i);
    let g = raised(f, height, split_key, left_id, left, right_id, right, root);
    law_root_is_responsible_for_all_keys(f, height, raw);
    let place = f.places[ROOT_ID];
    assert(parts_at(page, place, i));
    lemma_split_key_within(page, place, i);
    assert(seq![page][0] == page);
    law_split_key_is_not_empty(page.items, i);
    lemma_bytes_order(Seq::<u8>::empty(), raw);
    lemma_bytes_order(split_key, raw);
    assert(g.head(ROOT_ID) == root);
    assert(g.head(left_id) == left);
    assert(g.head(right_id) == right);
    if at <= height {
        law_new_root_keeps_searches(
            f,
            height,
            i,
            left_id,
            left,
            right_id,
            right,
            root,
            raw,
            at + 1,
        );
    }
    if at == height {
        law_root_split_redirects(root, left_id, split_key, right_id, raw);
    } else if at < height {
        lemma_left_alone_ok(page, place, i, left);
        lemma_right_ok(page, place, i, right);
        lemma_visited(f, height, raw, at + 1);
        lemma_visited(f, height, raw, at);
        assert(path_ok(f, height, raw, at));
        if at + 1 == height {
            if bytes_lt(raw, split_key) {
                assert(child_at(g.chains[left_id], Some(split_key), raw) == child_at(
                    f.chains[ROOT_ID],
                    place.range.end,
                    raw,
                ));
            } else {
                assert(child_at(g.chains[right_id], place.range.end, raw) == child_at(
                    f.chains[ROOT_ID],
                    place.range.end,
                    raw,
                ));
            }
        } else {
            let above = visit(f, height, raw, at + 1).0;
            assert(g.chains[above.id] == f.chains[above.id]);
        }
        let (to, to_range) = refer(f, height, raw, at);
        assert(to.id != ROOT_ID);
        assert(g.head(to.id) == f.head(to.id));
        if f.head(to.id).info.epoch != to.epoch {
            assert(split_is_pending(f, to, to_range));
            assert(split_is_pending(g, to, to_range));
        }
    }
}

/// Once the root has parted, the pages form a tree that is higher by one, and every read
/// gets what it got before.
pub proof fn law_new_root_changes_no_read(
    f: Forest,
    height: nat,
    i: int,
    left_id: u64,
    left: Page,
    right_id: u64,
    right: Page,
    root: Page,
    raw: Seq<u8>,
    lsn: u64,
)
    requires
        root_parts(f, height, i, left_id, left, right_id, right, root),
    ensures
        ({
            let split_key = f.head(ROOT_ID).items.raw(i);
            let g = raised(f, height, split_key, left_id, left, right_id, right, root);
            &&& tree_ok(g, height + 1)
            &&& read(g, height + 1, raw, lsn) == read(f, height, raw, lsn)
        }),
{
    let page = f.head(ROOT_ID);
    let split_key = page.items.raw(i);
    let g = raised(f, height, split_key, left_id, left, right_id, right, root);
    law_root_is_responsible_for_all_keys(f, height, raw);
    let place = f.places[ROOT_ID];
    assert(parts_at(page, place, i));
    assert(seq![page][0] == page);
    law_split_key_is_not_empty(page.items, i);
    lemma_left_alone_ok(page, place, i, left);
    lemma_right_ok(page, place, i, right);
    lemma_new_root_ok(root, left_id, split_key, right_id, height + 1);
    assert forall|other: u64| #[trigger] g.has(other) implies page_ok(
        g.chains[other],
        g.places[other],
    ) by {
        if other != ROOT_ID && other != left_id && other != right_id {
            assert(f.has(other));
        }
    }
    assert forall|other: Seq<u8>, at: nat| at <= height + 1 implies #[trigger] path_ok(
        g,
        height + 1,
        other,
        at,
    ) by {
        law_new_root_keeps_searches(
            f,
            height,
            i,
            left_id,
            left,
            right_id,
            right,
            root,
            other,
            at,
        );
    }
    law_new_root_keeps_searches(f, height, i, left_id, left, right_id, right, root, raw, 0);
    lemma_visited(f, height, raw, 0);
    lemma_bytes_order(split_key, raw);
    if height == 0 {
        lemma_read_alone(page, raw, lsn);
        lemma_read_alone(left, raw, lsn);
        lemma_read_alone(right, raw, lsn);
        if bytes_lt(raw, split_key) {
            law_left_half_says_the_same(page, left, i, raw, lsn);
        } else {
            law_right_half_says_the_same(page, right, i, raw, lsn);
        }
    }
}

} // verus!
