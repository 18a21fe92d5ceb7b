//! The two halves of a page in the places that they are there for.

use crate::bytes::{bytes_le, bytes_lt, lemma_bytes_le_lt, lemma_bytes_order};
use crate::laws::children::{all_live, chain_live, chain_wf, first_live, lemma_first_live_item,
    lemma_live_index, live_item};
use crate::laws::collection::{chain_limit, data_values, lemma_data_values_first};
use crate::laws::delta::draft_of;
use crate::laws::exchange::lemma_chain_limit_front;
use crate::laws::forest::{children_within, page_ok, Place};
use crate::laws::halves::{law_halves_part_at_the_key, law_right_half_says_the_same,
    lemma_part_sorted};
use crate::laws::inner::{child_at, law_splitting_keeps_regular, law_whole_page_is_regular,
    lemma_same_route, lemma_single_live, routes};
use crate::lookup::split_delta;
use crate::merge::{is_part, split_index, under_limit};
use crate::page::{null_index, position_lt, Items, Key, Page, PageInfo, PageKind, RangeView,
    SortedPageKey, Value};
use crate::split::is_split_draft;
use vstd::prelude::*;

verus! {

/// The page stands alone in the place, and parts at the item.
pub open spec fn parts_at(page: Page, place: Place, i: int) -> bool {
    &&& page_ok(seq![page], place)
    &&& page.info.kind is Data
    &&& split_index(page.items) == Some(i)
}

/// The place of the left half.
pub open spec fn left_place(place: Place, split_key: Seq<u8>) -> Place {
    Place { range: RangeView { start: place.range.start, end: Some(split_key) }, ..place }
}

/// The place of the right half.
pub open spec fn right_place(place: Place, split_key: Seq<u8>) -> Place {
    Place {
        range: RangeView { start: split_key, end: place.range.end },
        epoch: 0,
        level: place.level,
    }
}

/// What is known of a page that stands alone.
pub proof fn lemma_alone(page: Page)
    ensures
        data_values(seq![page]) == match page.items {
            Items::Values(v) => seq![v],
            Items::Indexes(_) => Seq::empty(),
        },
        chain_limit(seq![page]) == if page.info.kind is Split {
            Some(split_delta(page).0)
        } else {
            None
        },
{
    assert(seq![page] =~= seq![page] + Seq::<Page>::empty());
    lemma_chain_limit_front(page, Seq::empty());
    lemma_data_values_first(seq![page]);
    assert(seq![page].drop_first() =~= Seq::<Page>::empty());
    match page.items {
        Items::Values(v) => {
            assert(seq![v] + Seq::<Vec<(Key, Value)>>::empty() =~= seq![v]);
        },
        Items::Indexes(_) => {},
    }
}

/// The keys of a page that stands alone lie in its range.
proof fn lemma_key_within(page: Page, place: Place, k: int)
    requires
        page_ok(seq![page], place),
        page.info.kind is Data,
        0 <= k < page.items.count(),
    ensures
        place.range.contains(page.items.raw(k)),
        page.items matches Items::Indexes(v) ==> chain_live(seq![page], v@[k].0@) == Some(
            v@[k].1,
        ),
{
    lemma_alone(page);
    assert(seq![page][0] == page);
    assert(page.wf());
    match page.items {
        Items::Values(v) => {
            assert(data_values(seq![page])[0]@[k] == v@[k]);
        },
        Items::Indexes(v) => {
            assert(seq![page].last() == page);
            lemma_live_index(v@, k);
            lemma_single_live(page, v@[k].0@);
            assert(chain_live(seq![page], v@[k].0@) is Some);
        },
    }
}

/// The key at which a page parts lies inside its range.
pub proof fn lemma_split_key_within(page: Page, place: Place, i: int)
    requires
        parts_at(page, place, i),
    ensures
        0 < i < page.items.count(),
        bytes_lt(place.range.start, page.items.raw(i)),
        under_limit(page.items.raw(i), place.range.end),
{
    assert(seq![page][0] == page);
    law_halves_part_at_the_key(page.items, i, 0);
    lemma_key_within(page, place, 0);
    lemma_key_within(page, place, i);
    lemma_bytes_le_lt(place.range.start, page.items.raw(0), page.items.raw(i));
}

/// Behind the page that announces the split, the whole page is fit for the place of the
/// left half.
pub proof fn lemma_left_ok(page: Page, place: Place, i: int, delta: Page, right_id: u64)
    requires
        parts_at(page, place, i),
        is_split_draft(draft_of(delta), page.info.tier, page.items.raw(i), right_id),
    ensures
        page_ok(seq![delta] + seq![page], left_place(place, page.items.raw(i))),
        place.level > 0 ==> forall|raw: Seq<u8>|
            bytes_lt(raw, page.items.raw(i)) ==> #[trigger] child_at(
                seq![delta] + seq![page],
                Some(page.items.raw(i)),
                raw,
            ) == child_at(seq![page], place.range.end, raw),
{
    let split_key = page.items.raw(i);
    let whole = seq![page];
    let chain = seq![delta] + seq![page];
    let left = left_place(place, split_key);
    lemma_split_key_within(page, place, i);
    lemma_alone(page);
    assert(whole[0] == page);
    assert(chain =~= seq![delta] + whole);
    lemma_chain_limit_front(delta, whole);
    lemma_data_values_first(chain);
    assert(chain.drop_first() =~= whole);
    assert(delta.wf());
    assert(chain_wf(chain));
    if place.level == 0 {
        assert forall|p: int, j: int|
            0 <= p < data_values(chain).len() && 0 <= j < data_values(chain)[p]@.len()
                && under_limit(
                (#[trigger] data_values(chain)[p]@[j]).0.raw@,
                chain_limit(chain),
            ) implies left.range.contains(data_values(chain)[p]@[j].0.raw@) by {
            assert(data_values(whole)[p]@[j] == data_values(chain)[p]@[j]);
        }
    } else {
        lemma_key_within(page, place, i);
        law_splitting_keeps_regular(whole, place.range.end, delta, split_key);
        assert(children_within(chain, left.range)) by {
            assert forall|k: Seq<u8>| #[trigger]
                chain_live(chain, k) is Some && under_limit(k, chain_limit(chain)) implies
                left.range.contains(k) by {
                assert(chain_live(whole, k) is Some);
            }
        }
        assert(chain.last() == page);
    }
}

/// The right half is fit for its place, and sends every key of its range where the whole
/// page sent it.
pub proof fn lemma_right_ok(page: Page, place: Place, i: int, right: Page)
    requires
        parts_at(page, place, i),
        right.info.tier == page.info.tier,
        right.info.kind is Data,
        is_part(right.items, page.items, i, page.items.count() as int),
    ensures
        page_ok(seq![right], right_place(place, page.items.raw(i))),
        place.level > 0 ==> forall|raw: Seq<u8>|
            bytes_le(page.items.raw(i), raw) ==> #[trigger] child_at(
                seq![right],
                place.range.end,
                raw,
            ) == child_at(seq![page], place.range.end, raw),
{
    let split_key = page.items.raw(i);
    let n = page.items.count() as int;
    let whole = seq![page];
    let chain = seq![right];
    let there = right_place(place, split_key);
    lemma_split_key_within(page, place, i);
    lemma_alone(right);
    assert(whole[0] == page);
    assert(page.wf());
    assert forall|k: int| 0 <= k < right.items.count() implies there.range.contains(
        #[trigger] right.items.raw(k),
    ) by {
        assert(right.items.raw(k) == page.items.raw(i + k));
        lemma_key_within(page, place, i + k);
        law_halves_part_at_the_key(page.items, i, i + k);
        lemma_bytes_order(split_key, page.items.raw(i + k));
    }
    match page.items {
        Items::Values(v) => {
            lemma_part_sorted(v@, i, n);
            assert(right.wf());
            assert(chain_wf(chain));
            assert forall|p: int, j: int|
                0 <= p < data_values(chain).len() && 0 <= j < data_values(chain)[p]@.len()
                    && under_limit(
                    (#[trigger] data_values(chain)[p]@[j]).0.raw@,
                    chain_limit(chain),
                ) implies there.range.contains(data_values(chain)[p]@[j].0.raw@) by {
                assert(right.items.raw(j) == data_values(chain)[p]@[j].0.raw@);
            }
        },
        Items::Indexes(v) => {
            lemma_part_sorted(v@, i, n);
            assert(right.wf());
            assert(chain_wf(chain));
            lemma_part_ok(page, place, right, i, n, there);
            assert forall|raw: Seq<u8>| bytes_le(split_key, raw) implies #[trigger] child_at(
                chain,
                place.range.end,
                raw,
            ) == child_at(whole, place.range.end, raw) by {
                law_right_half_says_the_same(page, right, i, raw, 0);
                lemma_single_live(right, raw);
                lemma_single_live(page, raw);
            }
        },
    }
}

/// A part of an inner page that stands alone is fit for a place that begins with its first
/// key and holds all its keys.
proof fn lemma_part_ok(page: Page, place: Place, part: Page, from: int, to: int, there: Place)
    requires
        page_ok(seq![page], place),
        page.info.kind is Data,
        part.info.tier == page.info.tier,
        part.info.kind is Data,
        part.wf(),
        page.items is Indexes,
        0 <= from < to <= page.items.count(),
        is_part(part.items, page.items, from, to),
        place.level > 0,
        there.level == place.level,
        there.range.start == page.items.raw(from),
        there.range.contains(there.range.start),
        forall|k: int|
            0 <= k < part.items.count() ==> there.range.contains(#[trigger] part.items.raw(k)),
    ensures
        page_ok(seq![part], there),
        forall|k: int|
            from <= k < to ==> chain_live(seq![part], #[trigger] page.items.raw(k)) == chain_live(
                seq![page],
                page.items.raw(k),
            ),
{
    let chain = seq![part];
    let items = page.items->Indexes_0@;
    let few = part.items->Indexes_0@;
    lemma_alone(part);
    assert(seq![page].last() == page);
    assert(chain.last() == part);
    assert(all_live(few)) by {
        assert forall|k: int| 0 <= k < few.len() implies (#[trigger] few[k]).1
            != null_index() by {
            assert(few[k] == items[from + k]);
        }
    }
    assert forall|k: int| 0 <= k < few.len() implies under_limit(
        #[trigger] few[k].0@,
        there.range.end,
    ) by {
        assert(there.range.contains(part.items.raw(k)));
    }
    law_whole_page_is_regular(part, there.range.end);
    assert forall|k: int| from <= k < to implies chain_live(chain, #[trigger] page.items.raw(k))
        == chain_live(seq![page], page.items.raw(k)) by {
        assert(few[k - from] == items[k]);
        lemma_live_index(few, k - from);
        lemma_single_live(part, items[k].0@);
        lemma_key_within(page, place, k);
    }
    assert(children_within(chain, there.range)) by {
        assert(chain_live(chain, page.items.raw(from)) == chain_live(
            seq![page],
            page.items.raw(from),
        ));
        lemma_key_within(page, place, from);
        assert forall|k: Seq<u8>| #[trigger]
            chain_live(chain, k) is Some && under_limit(k, chain_limit(chain)) implies
            there.range.contains(k) by {
            lemma_single_live(part, k);
            lemma_first_live_item(few, k);
            let index = first_live(few, k)->0;
            let j = choose|j: int| 0 <= j < few.len() && live_item(#[trigger] few[j], k) == Some(
                index,
            );
            assert(part.items.raw(j) == k);
        }
    }
}

/// The left half is fit for its place on its own, and sends every key of its range where the
/// whole page sent it.
pub proof fn lemma_left_alone_ok(page: Page, place: Place, i: int, left: Page)
    requires
        parts_at(page, place, i),
        left.info.tier == page.info.tier,
        left.info.kind is Data,
        is_part(left.items, page.items, 0, i),
    ensures
        page_ok(seq![left], left_place(place, page.items.raw(i))),
        place.level > 0 ==> forall|raw: Seq<u8>|
            bytes_lt(raw, page.items.raw(i)) ==> #[trigger] child_at(
                seq![left],
                Some(page.items.raw(i)),
                raw,
            ) == child_at(seq![page], place.range.end, raw),
{
    let split_key = page.items.raw(i);
    let whole = seq![page];
    let chain = seq![left];
    let there = left_place(place, split_key);
    lemma_split_key_within(page, place, i);
    lemma_alone(left);
    lemma_alone(page);
    assert(whole[0] == page);
    assert(page.wf());
    assert forall|k: int| 0 <= k < left.items.count() implies there.range.contains(
        #[trigger] left.items.raw(k),
    ) by {
        assert(left.items.raw(k) == page.items.raw(k));
        lemma_key_within(page, place, k);
        law_halves_part_at_the_key(page.items, i, k);
    }
    match page.items {
        Items::Values(v) => {
            lemma_part_sorted(v@, 0, i);
            assert(left.wf());
            assert(chain_wf(chain));
            assert forall|p: int, j: int|
                0 <= p < data_values(chain).len() && 0 <= j < data_values(chain)[p]@.len()
                    && under_limit(
                    (#[trigger] data_values(chain)[p]@[j]).0.raw@,
                    chain_limit(chain),
                ) implies there.range.contains(data_values(chain)[p]@[j].0.raw@) by {
                assert(left.items.raw(j) == data_values(chain)[p]@[j].0.raw@);
            }
        },
        Items::Indexes(v) => {
            lemma_part_sorted(v@, 0, i);
            assert(left.wf());
            assert(chain_wf(chain));
            lemma_first_key(page, place);
            lemma_part_ok(page, place, left, 0, i, there);
            // Announcing the split would send the keys where the left half sends them.
            let delta = Page {
                info: PageInfo { kind: PageKind::Split, ..page.info },
                items: page.items,
            };
            let announced = seq![delta] + whole;
            lemma_key_within(page, place, i);
            law_splitting_keeps_regular(whole, place.range.end, delta, split_key);
            assert forall|k: Seq<u8>|
                #![trigger chain_live(announced, k)]
                #![trigger chain_live(chain, k)]
                under_limit(k, Some(split_key)) implies chain_live(announced, k) == chain_live(
                chain,
                k,
            ) by {
                lemma_left_live(page, place, i, left, k);
                assert(chain_live(announced, k) == chain_live(whole, k));
            }
            assert forall|raw: Seq<u8>| bytes_lt(raw, split_key) implies #[trigger] child_at(
                chain,
                Some(split_key),
                raw,
            ) == child_at(whole, place.range.end, raw) by {
                assert(routes(announced, Some(split_key), raw));
                assert(routes(chain, Some(split_key), raw));
                lemma_same_route(announced, chain, Some(split_key), raw);
                assert(child_at(announced, Some(split_key), raw) == child_at(
                    whole,
                    place.range.end,
                    raw,
                ));
            }
        },
    }
}

/// An inner page that stands alone begins with the first key of its range.
proof fn lemma_first_key(page: Page, place: Place)
    requires
        page_ok(seq![page], place),
        page.info.kind is Data,
        page.items is Indexes,
        place.level > 0,
    ensures
        page.items.count() > 0,
        page.items.raw(0) == place.range.start,
{
    let items = page.items->Indexes_0@;
    let start = place.range.start;
    assert(seq![page][0] == page);
    assert(page.wf());
    lemma_single_live(page, start);
    lemma_first_live_item(items, start);
    let index = first_live(items, start)->0;
    let j = choose|j: int| 0 <= j < items.len() && live_item(#[trigger] items[j], start) == Some(
        index,
    );
    lemma_key_within(page, place, 0);
    if j > 0 {
        assert(position_lt(items[0].0.position(), items[j].0.position()));
        lemma_bytes_order(start, items[0].0@);
    }
}

proof fn lemma_left_live(page: Page, place: Place, i: int, left: Page, k: Seq<u8>)
    requires
        parts_at(page, place, i),
        page.items is Indexes,
        is_part(left.items, page.items, 0, i),
        left.info.kind is Data,
        bytes_lt(k, page.items.raw(i)),
    ensures
        chain_live(seq![page], k) == chain_live(seq![left], k),
{
    let items = page.items->Indexes_0@;
    let few = left.items->Indexes_0@;
    assert(seq![page][0] == page);
    assert(page.wf());
    lemma_split_key_within(page, place, i);
    lemma_part_sorted(items, 0, i);
    lemma_single_live(page, k);
    lemma_single_live(left, k);
    lemma_first_live_item(items, k);
    lemma_first_live_item(few, k);
    if chain_live(seq![page], k) is Some {
        let index = first_live(items, k)->0;
        let j = choose|j: int| 0 <= j < items.len() && live_item(#[trigger] items[j], k) == Some(
            index,
        );
        law_halves_part_at_the_key(page.items, i, j);
        assert(few[j] == items[j]);
        lemma_live_index(few, j);
        lemma_live_index(items, j);
    } else if chain_live(seq![left], k) is Some {
        let index = first_live(few, k)->0;
        let j = choose|j: int| 0 <= j < few.len() && live_item(#[trigger] few[j], k) == Some(
            index,
        );
        assert(few[j] == items[j]);
        lemma_live_index(items, j);
    }
}

} // verus!
