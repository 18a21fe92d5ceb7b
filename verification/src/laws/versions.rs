//! What is left of the versions of a key when leaf pages are merged.

use crate::bytes::lemma_bytes_irreflexive;
use crate::laws::order::{lemma_drop_last_ordered, lemma_last_is_last, lemma_merged_onto_ordered,
    lemma_merged_pair_ordered, lemma_not_after, lemma_sorted_is_ordered, ordered};
use crate::lookup::{first_version, is_match, is_visible, lemma_visible_value, visible_value};
use crate::merge::{is_covered, limited, merged, merged_onto, merged_pair, needed_versions,
    under_limit};
use crate::page::{lemma_position_asymmetric, position_lt, sorted, Key, SortedPageKey, Value};
use vstd::prelude::*;

verus! {

/// No version in `newer` has a smaller sequence number than a version of the same key in
/// `older`.
pub open spec fn dominates(newer: Seq<(Key, Value)>, older: Seq<(Key, Value)>) -> bool {
    forall|i: int, j: int|
        0 <= i < newer.len() && 0 <= j < older.len() && #[trigger] newer[i].0.raw@
            == #[trigger] older[j].0.raw@ ==> newer[i].0.lsn >= older[j].0.lsn
}

/// The answer of the first of two that has one.
pub open spec fn or_else<T>(a: Option<T>, b: Option<T>) -> Option<T> {
    match a {
        Some(_) => a,
        None => b,
    }
}

/// What the version holds.
pub open spec fn value_of(version: Option<(Key, Value)>) -> Option<Value> {
    match version {
        Some(x) => Some(x.1),
        None => None,
    }
}

/// The first version that matches is one of the items, and it does match.
pub proof fn lemma_first_version_from(items: Seq<(Key, Value)>, raw: Seq<u8>, lsn: u64)
    ensures
        first_version(items, raw, lsn) matches Some(x) ==> is_match(x, raw, lsn) && is_item(
            x,
            items,
        ),
    decreases items.len(),
{
    if items.len() > 0 {
        let rest = items.drop_last();
        lemma_first_version_from(rest, raw, lsn);
        match first_version(rest, raw, lsn) {
            Some(x) => {
                let k = choose|k: int| 0 <= k < rest.len() && #[trigger] rest[k] == x;
                assert(items[k] == x);
            },
            None => {
                assert(items[items.len() - 1] == items.last());
            },
        }
    }
}

/// Where versions come newest first, none that matches is newer than the first one.
pub proof fn lemma_first_version_is_newest(
    items: Seq<(Key, Value)>,
    raw: Seq<u8>,
    lsn: u64,
    j: int,
)
    requires
        ordered(items),
        0 <= j < items.len(),
        is_match(items[j], raw, lsn),
    ensures
        first_version(items, raw, lsn) matches Some(x) && x.0.lsn >= items[j].0.lsn,
    decreases items.len(),
{
    let rest = items.drop_last();
    let n = items.len() - 1;
    lemma_drop_last_ordered(items);
    if j < n {
        assert(rest[j] == items[j]);
        lemma_first_version_is_newest(rest, raw, lsn, j);
    } else if first_version(rest, raw, lsn) is Some {
        let x = first_version(rest, raw, lsn)->0;
        lemma_first_version_from(rest, raw, lsn);
        let k = choose|k: int| 0 <= k < rest.len() && #[trigger] rest[k] == x;
        assert(items[k] == x);
        assert(!position_lt(items[n].0.position(), items[k].0.position()));
    }
}

/// In a page in order the first version that matches is the visible one.
pub proof fn lemma_first_version_is_visible(items: Seq<(Key, Value)>, raw: Seq<u8>, lsn: u64)
    requires
        sorted(items),
    ensures
        visible_value(items, raw, lsn) == value_of(first_version(items, raw, lsn)),
{
    lemma_sorted_is_ordered(items);
    match first_version(items, raw, lsn) {
        Some(x) => {
            lemma_first_version_from(items, raw, lsn);
            let i = choose|i: int| 0 <= i < items.len() && #[trigger] items[i] == x;
            assert forall|j: int|
                0 <= j < items.len() && (#[trigger] items[j]).0.raw@ == raw && items[j].0.lsn
                    <= lsn implies items[j].0.lsn <= items[i].0.lsn by {
                lemma_first_version_is_newest(items, raw, lsn, j);
            }
            assert(is_visible(items, raw, lsn, i));
            lemma_visible_value(items, raw, lsn, i);
        },
        None => {
            assert forall|j: int| !is_visible(items, raw, lsn, j) by {
                if is_visible(items, raw, lsn, j) {
                    lemma_first_version_is_newest(items, raw, lsn, j);
                }
            }
        },
    }
}

/// What is merged comes from one of the two pages.
pub proof fn lemma_merged_pair_from<K: SortedPageKey, V>(
    newer: Seq<(K, V)>,
    older: Seq<(K, V)>,
    k: int,
)
    requires
        0 <= k < merged_pair(newer, older).len(),
    ensures
        ({
            let x = merged_pair(newer, older)[k];
            ||| exists|i: int| 0 <= i < newer.len() && #[trigger] newer[i] == x
            ||| exists|j: int| 0 <= j < older.len() && #[trigger] older[j] == x
        }),
    decreases newer.len() + older.len(),
{
    let x = merged_pair(newer, older)[k];
    if newer.len() == 0 {
        assert(older[k] == x);
    } else if older.len() == 0 {
        assert(newer[k] == x);
    } else if position_lt(older.last().0.position(), newer.last().0.position()) {
        let rest = merged_pair(newer.drop_last(), older);
        if k < rest.len() {
            lemma_merged_pair_from(newer.drop_last(), older, k);
            if exists|i: int| 0 <= i < newer.drop_last().len() && #[trigger] newer.drop_last()[i]
                == x {
                let i = choose|i: int|
                    0 <= i < newer.drop_last().len() && #[trigger] newer.drop_last()[i] == x;
                assert(newer[i] == x);
            }
        } else {
            assert(newer[newer.len() - 1] == x);
        }
    } else {
        let rest = merged_pair(newer, older.drop_last());
        if k < rest.len() {
            lemma_merged_pair_from(newer, older.drop_last(), k);
            if exists|i: int| 0 <= i < older.drop_last().len() && #[trigger] older.drop_last()[i]
                == x {
                let i = choose|i: int|
                    0 <= i < older.drop_last().len() && #[trigger] older.drop_last()[i] == x;
                assert(older[i] == x);
            }
        } else {
            assert(older[older.len() - 1] == x);
        }
    }
}

/// The version with the greater sequence number; of two with the same number the first one.
pub open spec fn newer_of(a: Option<(Key, Value)>, b: Option<(Key, Value)>) -> Option<
    (Key, Value),
> {
    match (a, b) {
        (Some(x), Some(y)) => if y.0.lsn > x.0.lsn {
            b
        } else {
            a
        },
        (Some(_), None) => a,
        (None, _) => b,
    }
}

/// Of two merged pages a reader gets the newer version; where both have the same sequence
/// number, that of the newer page.
pub proof fn lemma_merged_pair_first(
    newer: Seq<(Key, Value)>,
    older: Seq<(Key, Value)>,
    raw: Seq<u8>,
    lsn: u64,
)
    requires
        ordered(newer),
        ordered(older),
    ensures
        first_version(merged_pair(newer, older), raw, lsn) == newer_of(
            first_version(newer, raw, lsn),
            first_version(older, raw, lsn),
        ),
    decreases newer.len() + older.len(),
{
    if newer.len() > 0 && older.len() > 0 {
        let all = merged_pair(newer, older);
        let n = newer.last().0.position();
        let o = older.last().0.position();
        lemma_drop_last_ordered(newer);
        lemma_drop_last_ordered(older);
        lemma_bytes_irreflexive(raw);
        if position_lt(o, n) {
            lemma_merged_pair_first(newer.drop_last(), older, raw, lsn);
            assert(all.drop_last() =~= merged_pair(newer.drop_last(), older));
            if let Some(y) = first_version(older, raw, lsn) {
                lemma_first_version_from(older, raw, lsn);
                lemma_last_is_last(older, y);
                if is_match(newer.last(), raw, lsn) {
                    lemma_position_asymmetric(o, n);
                    lemma_not_after(y.0.position(), o, n);
                    if y.0.position() == n {
                        lemma_position_asymmetric(o, y.0.position());
                    }
                }
            }
        } else {
            lemma_merged_pair_first(newer, older.drop_last(), raw, lsn);
            assert(all.drop_last() =~= merged_pair(newer, older.drop_last()));
            if let Some(x) = first_version(newer, raw, lsn) {
                lemma_first_version_from(newer, raw, lsn);
                lemma_last_is_last(newer, x);
                lemma_not_after(x.0.position(), n, o);
            }
        }
    }
}

/// The newest version that the pages, newest first, and `oldest` have to show.
pub open spec fn newest_onto(
    pages: Seq<Vec<(Key, Value)>>,
    oldest: Option<(Key, Value)>,
    raw: Seq<u8>,
    lsn: u64,
) -> Option<(Key, Value)>
    decreases pages.len(),
{
    if pages.len() == 0 {
        oldest
    } else {
        newest_onto(
            pages.drop_last(),
            newer_of(first_version(pages.last()@, raw, lsn), oldest),
            raw,
            lsn,
        )
    }
}

/// The newest version of the key that is no newer than `lsn` in the pages, newest first. Of
/// versions with the same sequence number it is the one in the newest page.
pub open spec fn newest_version(pages: Seq<Vec<(Key, Value)>>, raw: Seq<u8>, lsn: u64) -> Option<
    (Key, Value),
> {
    newest_onto(pages, None, raw, lsn)
}

proof fn lemma_merged_onto_first(
    pages: Seq<Vec<(Key, Value)>>,
    oldest: Seq<(Key, Value)>,
    raw: Seq<u8>,
    lsn: u64,
)
    requires
        forall|i: int| 0 <= i < pages.len() ==> sorted(#[trigger] pages[i]@),
        ordered(oldest),
    ensures
        first_version(merged_onto(pages, oldest), raw, lsn) == newest_onto(
            pages,
            first_version(oldest, raw, lsn),
            raw,
            lsn,
        ),
    decreases pages.len(),
{
    if pages.len() > 0 {
        let rest = pages.drop_last();
        let last = pages[pages.len() - 1]@;
        assert forall|i: int| 0 <= i < rest.len() implies sorted(#[trigger] rest[i]@) by {
            assert(rest[i] == pages[i]);
        }
        lemma_sorted_is_ordered(last);
        lemma_merged_pair_ordered(last, oldest);
        lemma_merged_pair_first(last, oldest, raw, lsn);
        lemma_merged_onto_first(rest, merged_pair(last, oldest), raw, lsn);
    }
}

/// A reader of merged pages gets the newest version that any of the pages holds; of versions
/// with the same sequence number the one in the newest page.
pub proof fn law_merged_pages_show_the_newest(
    pages: Seq<Vec<(Key, Value)>>,
    raw: Seq<u8>,
    lsn: u64,
)
    requires
        forall|i: int| 0 <= i < pages.len() ==> sorted(#[trigger] pages[i]@),
    ensures
        ordered(merged(pages)),
        first_version(merged(pages), raw, lsn) == newest_version(pages, raw, lsn),
{
    lemma_merged_onto_ordered(pages, Seq::empty());
    lemma_merged_onto_first(pages, Seq::empty(), raw, lsn);
}

/// What the first page says that says anything, or else what `oldest` says.
pub open spec fn first_visible(
    pages: Seq<Vec<(Key, Value)>>,
    oldest: Option<Value>,
    raw: Seq<u8>,
    lsn: u64,
) -> Option<Value>
    decreases pages.len(),
{
    if pages.len() == 0 {
        oldest
    } else {
        or_else(
            visible_value(pages[0]@, raw, lsn),
            first_visible(pages.drop_first(), oldest, raw, lsn),
        )
    }
}

/// The pages are in order, and versions get no newer from page to page.
pub open spec fn descending(pages: Seq<Vec<(Key, Value)>>) -> bool {
    &&& forall|i: int| 0 <= i < pages.len() ==> sorted(#[trigger] pages[i]@)
    &&& forall|i: int, j: int|
        0 <= i < j < pages.len() ==> dominates(#[trigger] pages[i]@, #[trigger] pages[j]@)
}

proof fn lemma_first_visible_last(
    pages: Seq<Vec<(Key, Value)>>,
    oldest: Option<Value>,
    raw: Seq<u8>,
    lsn: u64,
)
    requires
        pages.len() > 0,
    ensures
        first_visible(pages, oldest, raw, lsn) == first_visible(
            pages.drop_last(),
            or_else(visible_value(pages.last()@, raw, lsn), oldest),
            raw,
            lsn,
        ),
    decreases pages.len(),
{
    if pages.len() > 1 {
        lemma_first_visible_last(pages.drop_first(), oldest, raw, lsn);
        assert(pages.drop_first().drop_last() =~= pages.drop_last().drop_first());
        assert(pages.drop_first().last() == pages.last());
        assert(pages.drop_last()[0] == pages[0]);
    } else {
        assert(pages.drop_first() =~= pages.drop_last());
    }
}

proof fn lemma_descending_onto(
    pages: Seq<Vec<(Key, Value)>>,
    oldest: Option<(Key, Value)>,
    raw: Seq<u8>,
    lsn: u64,
)
    requires
        descending(pages),
        oldest matches Some(y) ==> forall|i: int, k: int|
            0 <= i < pages.len() && 0 <= k < pages[i]@.len() && is_match(
                #[trigger] pages[i]@[k],
                raw,
                lsn,
            ) ==> pages[i]@[k].0.lsn >= y.0.lsn,
    ensures
        value_of(newest_onto(pages, oldest, raw, lsn)) == first_visible(
            pages,
            value_of(oldest),
            raw,
            lsn,
        ),
    decreases pages.len(),
{
    if pages.len() > 0 {
        let n = pages.len() - 1;
        let rest = pages.drop_last();
        let last = pages[n]@;
        let found = first_version(last, raw, lsn);
        let below = newer_of(found, oldest);
        lemma_first_version_is_visible(last, raw, lsn);
        lemma_first_version_from(last, raw, lsn);
        if let Some(x) = found {
            let k = choose|k: int| 0 <= k < last.len() && #[trigger] last[k] == x;
            assert(is_match(pages[n]@[k], raw, lsn));
            assert forall|i: int, m: int|
                0 <= i < rest.len() && 0 <= m < rest[i]@.len() && is_match(
                    #[trigger] rest[i]@[m],
                    raw,
                    lsn,
                ) implies rest[i]@[m].0.lsn >= x.0.lsn by {
                assert(rest[i] == pages[i]);
                assert(dominates(pages[i]@, pages[n]@));
                assert(pages[i]@[m].0.raw@ == pages[n]@[k].0.raw@);
            }
        } else {
            assert forall|i: int, m: int|
                below is Some && 0 <= i < rest.len() && 0 <= m < rest[i]@.len() && is_match(
                    #[trigger] rest[i]@[m],
                    raw,
                    lsn,
                ) implies rest[i]@[m].0.lsn >= (below->0).0.lsn by {
                assert(rest[i]@[m] == pages[i]@[m]);
            }
        }
        assert(descending(rest)) by {
            assert forall|i: int| 0 <= i < rest.len() implies sorted(#[trigger] rest[i]@) by {
                assert(rest[i] == pages[i]);
            }
            assert forall|i: int, j: int| 0 <= i < j < rest.len() implies dominates(
                #[trigger] rest[i]@,
                #[trigger] rest[j]@,
            ) by {
                assert(rest[i] == pages[i] && rest[j] == pages[j]);
                assert(dominates(pages[i]@, pages[j]@));
            }
        }
        lemma_descending_onto(rest, below, raw, lsn);
        lemma_first_visible_last(pages, value_of(oldest), raw, lsn);
    }
}

/// Where versions get no newer from page to page, the newest version is what a reader of the
/// pages one after the other sees.
pub proof fn law_newest_version_is_seen_first(
    pages: Seq<Vec<(Key, Value)>>,
    raw: Seq<u8>,
    lsn: u64,
)
    requires
        descending(pages),
    ensures
        value_of(newest_version(pages, raw, lsn)) == first_visible(pages, None, raw, lsn),
{
    lemma_descending_onto(pages, None, raw, lsn);
}

/// Beyond the limit nothing is left; before it everything is as it was.
pub proof fn law_limited_keeps_what_is_before(
    items: Seq<(Key, Value)>,
    limit: Option<Seq<u8>>,
    raw: Seq<u8>,
    lsn: u64,
)
    ensures
        first_version(limited(items, limit), raw, lsn) == if under_limit(raw, limit) {
            first_version(items, raw, lsn)
        } else {
            None
        },
    decreases items.len(),
{
    if items.len() > 0 {
        let rest = items.drop_last();
        law_limited_keeps_what_is_before(rest, limit, raw, lsn);
        if under_limit(items.last().0.raw@, limit) {
            let all = limited(items, limit);
            assert(all.drop_last() =~= limited(rest, limit));
        }
    }
}

/// One of the items.
pub open spec fn is_item<T>(x: T, items: Seq<T>) -> bool {
    exists|k: int| 0 <= k < items.len() && #[trigger] items[k] == x
}

pub proof fn lemma_limited_subset<K: SortedPageKey, V>(
    items: Seq<(K, V)>,
    limit: Option<Seq<u8>>,
    i: int,
)
    requires
        0 <= i < limited(items, limit).len(),
    ensures
        is_item(limited(items, limit)[i], items),
    decreases items.len(),
{
    let rest = items.drop_last();
    let kept = limited(rest, limit);
    let x = limited(items, limit)[i];
    if i < kept.len() {
        lemma_limited_subset(rest, limit, i);
        let k = choose|k: int| 0 <= k < rest.len() && #[trigger] rest[k] == x;
        assert(items[k] == x);
    } else {
        assert(items[items.len() - 1] == x);
    }
}

pub proof fn lemma_needed_subset(items: Seq<(Key, Value)>, safe_lsn: u64, i: int)
    requires
        0 <= i < needed_versions(items, safe_lsn).len(),
    ensures
        is_item(needed_versions(items, safe_lsn)[i], items),
    decreases items.len(),
{
    let rest = items.drop_last();
    let kept = needed_versions(rest, safe_lsn);
    let x = needed_versions(items, safe_lsn)[i];
    if i < kept.len() {
        lemma_needed_subset(rest, safe_lsn, i);
        let k = choose|k: int| 0 <= k < rest.len() && #[trigger] rest[k] == x;
        assert(items[k] == x);
    } else {
        assert(items[items.len() - 1] == x);
    }
}

/// Dropping old versions is not seen by a reader at the safe sequence number or later.
pub proof fn law_needed_versions_are_kept(
    items: Seq<(Key, Value)>,
    safe_lsn: u64,
    raw: Seq<u8>,
    lsn: u64,
)
    requires
        safe_lsn <= lsn,
    ensures
        first_version(needed_versions(items, safe_lsn), raw, lsn) == first_version(
            items,
            raw,
            lsn,
        ),
    decreases items.len(),
{
    if items.len() > 0 {
        let rest = items.drop_last();
        let x = items.last();
        let kept = needed_versions(rest, safe_lsn);
        law_needed_versions_are_kept(rest, safe_lsn, raw, lsn);
        if kept.len() > 0 && is_covered(kept.last().0, x.0, safe_lsn) {
            if is_match(x, raw, lsn) {
                assert(is_match(kept.last(), raw, lsn));
            }
        } else {
            assert(needed_versions(items, safe_lsn).drop_last() =~= kept);
        }
    }
}

} // verus!
