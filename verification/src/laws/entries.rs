//! The entries that a page iterator hands out.

use crate::bytes::{bytes_le, bytes_lt, lemma_bytes_irreflexive, lemma_bytes_le_lt,
    lemma_bytes_order};
use crate::iter::{entries, front_value, lemma_run_len_bound, run_len};
use crate::laws::order::{lemma_part_ordered, ordered};
use crate::laws::versions::{lemma_first_version_from, or_else};
use crate::lookup::{first_version, shown};
use crate::page::{position_lt, Key, SortedPageKey, Value};
use vstd::prelude::*;

verus! {

/// Of two lists of versions the first one is asked first.
pub proof fn lemma_first_version_parts(
    a: Seq<(Key, Value)>,
    b: Seq<(Key, Value)>,
    raw: Seq<u8>,
    lsn: u64,
)
    ensures
        first_version(a + b, raw, lsn) == or_else(
            first_version(a, raw, lsn),
            first_version(b, raw, lsn),
        ),
    decreases b.len(),
{
    if b.len() == 0 {
        assert(a + b =~= a);
    } else {
        lemma_first_version_parts(a, b.drop_last(), raw, lsn);
        assert((a + b).drop_last() =~= a + b.drop_last());
        assert((a + b).last() == b.last());
    }
}

/// A key that has no versions shows nothing.
pub proof fn lemma_nothing_shown(items: Seq<(Key, Value)>, raw: Seq<u8>, lsn: u64)
    requires
        forall|k: int| 0 <= k < items.len() ==> (#[trigger] items[k]).0.raw@ != raw,
    ensures
        first_version(items, raw, lsn) is None,
{
    lemma_first_version_from(items, raw, lsn);
}

/// The versions of the key at the front stand together, and all other keys come after it.
proof fn lemma_run(items: Seq<(Key, Value)>, raw: Seq<u8>, k: int)
    requires
        ordered(items),
        items.len() > 0,
        items[0].0.raw@ == raw,
        0 <= k < items.len(),
    ensures
        0 < run_len(items, raw) <= items.len(),
        k < run_len(items, raw) <==> items[k].0.raw@ == raw,
        bytes_le(raw, items[k].0.raw@),
    decreases items.len(),
{
    let rest = items.drop_first();
    let x = items[k].0.raw@;
    lemma_run_len_bound(items, raw);
    lemma_bytes_order(raw, x);
    if k > 0 {
        assert(!position_lt(items[k].0.position(), items[0].0.position()));
        let y = items[1].0.raw@;
        lemma_part_ordered(items, 1, items.len() as int);
        assert(rest =~= items.subrange(1, items.len() as int));
        assert(rest[0] == items[1] && rest[k - 1] == items[k]);
        if y == raw {
            lemma_run(rest, raw, k - 1);
        } else {
            lemma_run(rest, y, k - 1);
            assert(!position_lt(items[1].0.position(), items[0].0.position()));
            lemma_bytes_order(raw, y);
            lemma_bytes_irreflexive(raw);
            if y != x {
                lemma_bytes_le_lt(raw, y, x);
            }
        }
    }
}

/// The versions at the front decide what their key shows, and nothing else.
proof fn lemma_front(items: Seq<(Key, Value)>, lsn: u64, raw: Seq<u8>)
    requires
        ordered(items),
        items.len() > 0,
    ensures
        ({
            let front = items[0].0.raw@;
            let n = run_len(items, front);
            let rest = items.skip(n as int);
            &&& 0 < n <= items.len()
            &&& ordered(rest)
            &&& raw == front ==> shown(items, raw, lsn) == front_value(items, lsn) && shown(
                rest,
                raw,
                lsn,
            ) is None
            &&& raw != front ==> shown(items, raw, lsn) == shown(rest, raw, lsn)
            &&& forall|k: int|
                0 <= k < rest.len() ==> bytes_lt(front, (#[trigger] rest[k]).0.raw@)
        }),
{
    let front = items[0].0.raw@;
    let n = run_len(items, front);
    let run = items.take(n as int);
    let rest = items.skip(n as int);
    lemma_run(items, front, 0);
    lemma_part_ordered(items, n as int, items.len() as int);
    assert(rest =~= items.subrange(n as int, items.len() as int));
    assert(items =~= run + rest);
    assert forall|k: int| 0 <= k < rest.len() implies bytes_lt(
        front,
        (#[trigger] rest[k]).0.raw@,
    ) by {
        assert(rest[k] == items[n + k]);
        lemma_run(items, front, n + k);
    }
    lemma_first_version_parts(run, rest, raw, lsn);
    if raw == front {
        lemma_bytes_irreflexive(front);
        lemma_nothing_shown(rest, raw, lsn);
    } else {
        assert forall|k: int| 0 <= k < run.len() implies (#[trigger] run[k]).0.raw@ != raw by {
            assert(run[k] == items[k]);
            lemma_run(items, front, k);
        }
        lemma_nothing_shown(run, raw, lsn);
    }
}

/// The entries of a page are the keys that show a reader something, with what they show.
pub proof fn law_entries_are_what_a_reader_sees(
    items: Seq<(Key, Value)>,
    lsn: u64,
    raw: Seq<u8>,
    value: Seq<u8>,
)
    requires
        ordered(items),
    ensures
        entries(items, lsn).contains((raw, value)) <==> shown(items, raw, lsn) == Some(value),
    decreases items.len(),
{
    if items.len() > 0 {
        let front = items[0].0.raw@;
        let rest = items.skip(run_len(items, front) as int);
        let all = entries(items, lsn);
        let others = entries(rest, lsn);
        lemma_front(items, lsn, raw);
        law_entries_are_what_a_reader_sees(rest, lsn, raw, value);
        match front_value(items, lsn) {
            Some(v) => {
                assert(all =~= seq![(front, v)] + others);
                assert(all[0] == (front, v));
                if others.contains((raw, value)) {
                    let k = choose|k: int| 0 <= k < others.len() && others[k] == (raw, value);
                    assert(all[k + 1] == (raw, value));
                }
                if all.contains((raw, value)) {
                    let k = choose|k: int| 0 <= k < all.len() && all[k] == (raw, value);
                    if k > 0 {
                        assert(others[k - 1] == (raw, value));
                    }
                }
            },
            None => {},
        }
    }
}

/// The entries of a page come in the order of their keys, each key once.
pub proof fn law_entries_come_in_key_order(
    items: Seq<(Key, Value)>,
    lsn: u64,
    i: int,
    j: int,
)
    requires
        ordered(items),
        0 <= i < j < entries(items, lsn).len(),
    ensures
        bytes_lt(entries(items, lsn)[i].0, entries(items, lsn)[j].0),
    decreases items.len(),
{
    let front = items[0].0.raw@;
    let rest = items.skip(run_len(items, front) as int);
    lemma_front(items, lsn, front);
    match front_value(items, lsn) {
        Some(_) => {
            if i == 0 {
                lemma_entry_is_shown(rest, lsn, j - 1);
            } else {
                law_entries_come_in_key_order(rest, lsn, i - 1, j - 1);
            }
        },
        None => {
            law_entries_come_in_key_order(rest, lsn, i, j);
        },
    }
}

/// The key of an entry is one of the keys of the page.
pub proof fn lemma_entry_is_shown(items: Seq<(Key, Value)>, lsn: u64, i: int)
    requires
        ordered(items),
        0 <= i < entries(items, lsn).len(),
    ensures
        exists|k: int|
            0 <= k < items.len() && (#[trigger] items[k]).0.raw@ == entries(items, lsn)[i].0,
{
    let (raw, value) = entries(items, lsn)[i];
    assert(entries(items, lsn).contains((raw, value)));
    law_entries_are_what_a_reader_sees(items, lsn, raw, value);
    lemma_first_version_from(items, raw, lsn);
    let x = first_version(items, raw, lsn)->0;
    let k = choose|k: int| 0 <= k < items.len() && #[trigger] items[k] == x;
    assert(items[k].0.raw@ == raw);
}

} // verus!
