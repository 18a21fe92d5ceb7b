//! A whole iteration, while the tree changes under it.

use crate::bytes::{bytes_le, bytes_lt, lemma_bytes_irreflexive, lemma_bytes_le_lt,
    lemma_bytes_order, lemma_bytes_transitive};
use crate::iter::{lemma_count_before_bound, NextPageNext, NextPageTurn, PageIter, TreeIter};
use crate::laws::advance::{has_arrived, is_arrived, is_iter_run, is_iter_step,
    law_iterator_at_its_end_hands_out_nothing, law_next_page_is_the_page_that_follows};
use crate::laws::arrival::{came_to, knows_siblings, lemma_siblings_later};
use crate::laws::entries::{law_entries_are_what_a_reader_sees, lemma_entry_is_shown,
    lemma_first_version_parts, lemma_nothing_shown};
use crate::laws::forest::{visit, Forest};
use crate::laws::history::{can_grow, grown, is_safe, last_written,
    law_reads_return_the_last_write, Change};
use crate::laws::iteration::lemma_count_before;
use crate::laws::order::{lemma_part_ordered, ordered};
use crate::laws::reading::{is_untouched, lemma_untouched};
use crate::laws::runs::{between, extends, lemma_extends_transitive, lemma_grown_before,
    lemma_safe_before, Moment};
use crate::lookup::shown;
use crate::page::{Key, Page, Value};
use vstd::prelude::*;

verus! {

/// A step of an iteration, from its start to its end, with the page that it handed out.
pub struct Stride {
    pub pages: Map<u64, Page>,
    pub moments: Seq<Moment>,
    pub turns: Seq<NextPageTurn>,
    pub page: PageIter,
    pub after: TreeIter,
}

impl Stride {
    /// The changes that had been made to the tree when the step began.
    pub open spec fn first(self) -> Seq<Change> {
        self.moments[0].changes
    }

    /// The changes that had been made to the tree when the step ended.
    pub open spec fn last(self) -> Seq<Change> {
        self.moments.last().changes
    }

    /// The items that the page has left for the caller.
    pub open spec fn handed_out(self) -> Seq<(Key, Value)> {
        self.page.items@.skip(self.page.next as int)
    }
}

/// The iterator before the step.
pub open spec fn stood_at(iter: TreeIter, strides: Seq<Stride>, m: int) -> TreeIter {
    if m == 0 {
        iter
    } else {
        strides[m - 1].after
    }
}

/// The step is that of the iterator that the step before it left behind, and it handed out a
/// page.
pub open spec fn is_stride(root: Page, iter: TreeIter, strides: Seq<Stride>, m: int) -> bool {
    let stride = strides[m];
    &&& is_iter_run(
        stride.pages,
        root,
        stood_at(iter, strides, m),
        stride.moments,
        stride.turns,
    )
    &&& stride.turns.last().next == NextPageNext::Done((stride.after, Ok(Some(stride.page))))
    &&& m > 0 ==> extends(strides[m - 1].last(), stride.first())
}

/// The iterator made the steps one after the other. The tree changes as it may, during the
/// steps and between them.
pub open spec fn is_iteration(root: Page, iter: TreeIter, strides: Seq<Stride>) -> bool {
    forall|m: int| 0 <= m < strides.len() ==> #[trigger] is_stride(root, iter, strides, m)
}

/// The iterator knew the children that follow when the iteration began.
pub open spec fn is_ready(root: Page, iter: TreeIter, strides: Seq<Stride>) -> bool {
    let (f, height) = grown(root, strides[0].first());
    knows_siblings(f, height, iter)
}

/// A new iterator is ready, and has all keys before it.
pub proof fn law_new_iterator_starts_before_all_keys(
    f: Forest,
    height: nat,
    iter: TreeIter,
    raw: Seq<u8>,
)
    requires
        iter.inner_iter is None,
        iter.inner_next matches Some(next) && next@ == Seq::<u8>::empty(),
    ensures
        knows_siblings(f, height, iter),
        came_to(iter) matches Some(from) && bytes_le(from, raw),
{
    if raw.len() == 0 {
        assert(raw =~= Seq::<u8>::empty());
    }
}

/// Each step of an iteration had come to some key, and handed out the page that follows it.
pub proof fn law_each_page_follows(root: Page, iter: TreeIter, strides: Seq<Stride>, m: int)
    requires
        is_iteration(root, iter, strides),
        is_ready(root, iter, strides),
        0 <= m < strides.len(),
    ensures
        came_to(stood_at(iter, strides, m)) matches Some(at) && has_arrived(
            root,
            strides[m].first(),
            strides[m].last(),
            at,
            strides[m].page,
            came_to(strides[m].after),
        ),
        strides[m].page.max_lsn == iter.options.max_lsn,
        strides[m].after.options == iter.options,
        knows_siblings(
            grown(root, strides[m].last()).0,
            grown(root, strides[m].last()).1,
            strides[m].after,
        ),
        can_grow(root, strides[m].last()),
        extends(strides[m].first(), strides[m].last()),
        extends(strides[0].first(), strides[m].first()),
    decreases m,
{
    let stride = strides[m];
    let stood = stood_at(iter, strides, m);
    let first = strides[0].first();
    assert(is_stride(root, iter, strides, m));
    assert(first =~= first.take(first.len() as int));
    if came_to(stood) is None {
        law_iterator_at_its_end_hands_out_nothing(stood, stride.turns[0]);
        if stride.moments.len() > 0 {
            assert(is_iter_step(stride.pages, root, stride.moments, stride.turns, 0));
        }
    }
    let at = came_to(stood)->0;
    if m > 0 {
        law_each_page_follows(root, iter, strides, m - 1);
        let before = strides[m - 1];
        lemma_extends_transitive(first, before.first(), before.last());
        lemma_extends_transitive(first, before.last(), stride.first());
        if stride.moments.len() > 0 {
            assert(is_iter_step(stride.pages, root, stride.moments, stride.turns, 0));
            lemma_siblings_later(root, before.last(), stride.first(), stood);
        } else {
            assert(stride.turns[0] == stride.turns.last());
        }
    }
    assert(stride.moments.len() > 0);
    law_next_page_is_the_page_that_follows(
        stride.pages,
        root,
        stood,
        at,
        stride.moments,
        stride.turns,
        stride.after,
        Some(stride.page),
    );
    let n = stride.moments.len() as int;
    assert(is_iter_step(stride.pages, root, stride.moments, stride.turns, n - 1));
}

/// Where a step had come to.
pub open spec fn position(iter: TreeIter, strides: Seq<Stride>, m: int) -> Seq<u8> {
    came_to(stood_at(iter, strides, m))->0
}

/// What a step hands out lies between where it had come to and where it comes to.
proof fn lemma_handed_out(root: Page, iter: TreeIter, strides: Seq<Stride>, m: int)
    requires
        is_iteration(root, iter, strides),
        is_ready(root, iter, strides),
        0 <= m < strides.len(),
    ensures
        ordered(strides[m].handed_out()),
        strides[m].page.next <= strides[m].page.items@.len(),
        forall|k: int|
            0 <= k < strides[m].handed_out().len() ==> bytes_le(
                position(iter, strides, m),
                (#[trigger] strides[m].handed_out()[k]).0.raw@,
            ),
        came_to(strides[m].after) matches Some(end) ==> bytes_lt(
            position(iter, strides, m),
            end,
        ) && forall|k: int|
            0 <= k < strides[m].handed_out().len() ==> bytes_lt(
                (#[trigger] strides[m].handed_out()[k]).0.raw@,
                end,
            ),
{
    law_each_page_follows(root, iter, strides, m);
    let stride = strides[m];
    let items = stride.page.items@;
    let next = stride.page.next as int;
    let at = position(iter, strides, m);
    let end = came_to(stride.after);
    let c = choose|c: Seq<Change>|
        between(stride.first(), c, stride.last()) && #[trigger] is_arrived(
            root,
            c,
            at,
            stride.page,
            end,
        );
    let range = visit(grown(root, c).0, grown(root, c).1, at, 0).1;
    lemma_count_before_bound(items, at);
    lemma_part_ordered(items, next, items.len() as int);
    assert(stride.handed_out() =~= items.subrange(next, items.len() as int));
    assert forall|k: int| 0 <= k < stride.handed_out().len() implies bytes_le(
        at,
        (#[trigger] stride.handed_out()[k]).0.raw@,
    ) && (end is Some ==> bytes_lt(stride.handed_out()[k].0.raw@, end->0)) by {
        let raw = items[next + k].0.raw@;
        assert(stride.handed_out()[k] == items[next + k]);
        assert(range.contains(raw));
        lemma_count_before(items, at, next + k);
        lemma_bytes_order(at, raw);
    }
}

/// A later step has come further.
proof fn lemma_positions_rise(root: Page, iter: TreeIter, strides: Seq<Stride>, m: int, n: int)
    requires
        is_iteration(root, iter, strides),
        is_ready(root, iter, strides),
        0 <= m < n < strides.len(),
    ensures
        came_to(strides[m].after) matches Some(end) && bytes_le(end, position(iter, strides, n)),
    decreases n,
{
    law_each_page_follows(root, iter, strides, n);
    if m + 1 < n {
        lemma_positions_rise(root, iter, strides, m, n - 1);
        lemma_handed_out(root, iter, strides, n - 1);
        lemma_bytes_le_lt(
            came_to(strides[m].after)->0,
            position(iter, strides, n - 1),
            position(iter, strides, n),
        );
    }
}

/// An iteration hands out its keys in order: all keys of a page come before those of the pages
/// that follow, and each page is in order.
pub proof fn law_iteration_goes_in_key_order(
    root: Page,
    iter: TreeIter,
    strides: Seq<Stride>,
    m: int,
    n: int,
    k: int,
    l: int,
)
    requires
        is_iteration(root, iter, strides),
        is_ready(root, iter, strides),
        0 <= m < n < strides.len(),
        0 <= k < strides[m].handed_out().len(),
        0 <= l < strides[n].handed_out().len(),
    ensures
        ordered(strides[m].handed_out()),
        ordered(strides[n].handed_out()),
        bytes_lt(strides[m].handed_out()[k].0.raw@, strides[n].handed_out()[l].0.raw@),
{
    let a = strides[m].handed_out()[k].0.raw@;
    let b = strides[n].handed_out()[l].0.raw@;
    let end = came_to(strides[m].after)->0;
    let at = position(iter, strides, n);
    lemma_handed_out(root, iter, strides, m);
    lemma_handed_out(root, iter, strides, n);
    lemma_positions_rise(root, iter, strides, m, n);
    if end != at {
        lemma_bytes_transitive(a, end, at);
    }
    if at != b {
        lemma_bytes_transitive(a, at, b);
    }
}

/// The step in whose part of the keys the key lies.
proof fn lemma_step_of(
    root: Page,
    iter: TreeIter,
    strides: Seq<Stride>,
    raw: Seq<u8>,
    m: int,
) -> (n: int)
    requires
        is_iteration(root, iter, strides),
        is_ready(root, iter, strides),
        0 <= m < strides.len(),
        came_to(strides.last().after) is None,
        bytes_le(position(iter, strides, m), raw),
    ensures
        m <= n < strides.len(),
        bytes_le(position(iter, strides, n), raw),
        came_to(strides[n].after) matches Some(end) ==> bytes_lt(raw, end),
    decreases strides.len() - m,
{
    match came_to(strides[m].after) {
        Some(end) => {
            lemma_bytes_order(end, raw);
            if bytes_lt(raw, end) {
                m
            } else {
                assert(m + 1 < strides.len());
                lemma_step_of(root, iter, strides, raw, m + 1)
            }
        },
        None => m,
    }
}

/// The page of the step in whose part the key lies shows the last write of the key.
proof fn lemma_step_shows(
    root: Page,
    iter: TreeIter,
    strides: Seq<Stride>,
    raw: Seq<u8>,
    lsn: u64,
    n: int,
)
    requires
        is_iteration(root, iter, strides),
        is_ready(root, iter, strides),
        0 <= n < strides.len(),
        is_safe(strides.last().last(), lsn),
        is_untouched(strides[0].first(), strides.last().last(), raw, lsn),
        bytes_le(position(iter, strides, n), raw),
        came_to(strides[n].after) matches Some(end) ==> bytes_lt(raw, end),
    ensures
        shown(strides[n].handed_out(), raw, lsn) == last_written(strides[0].first(), raw, lsn),
{
    let stride = strides[n];
    let items = stride.page.items@;
    let next = stride.page.next as int;
    let at = position(iter, strides, n);
    let end = came_to(stride.after);
    let first = strides[0].first();
    let last = strides.last().last();
    law_each_page_follows(root, iter, strides, n);
    lemma_strides_extend(root, iter, strides, n);
    let c = choose|c: Seq<Change>|
        between(stride.first(), c, stride.last()) && #[trigger] is_arrived(
            root,
            c,
            at,
            stride.page,
            end,
        );
    let range = visit(grown(root, c).0, grown(root, c).1, at, 0).1;
    assert(range.contains(raw)) by {
        if range.start != at && at != raw {
            lemma_bytes_transitive(range.start, at, raw);
        }
    }
    lemma_grown_before(root, c, stride.last());
    lemma_extends_transitive(first, stride.first(), c);
    lemma_extends_transitive(c, stride.last(), last);
    lemma_safe_before(c, last, lsn);
    law_reads_return_the_last_write(root, c, raw, lsn);
    lemma_untouched(first, c, last, raw, lsn);
    assert(shown(items, raw, lsn) == last_written(first, raw, lsn));
    lemma_handed_out(root, iter, strides, n);
    let passed = items.take(next);
    assert(items =~= passed + stride.handed_out());
    assert forall|k: int| 0 <= k < passed.len() implies (#[trigger] passed[k]).0.raw@ != raw by {
        assert(passed[k] == items[k]);
        lemma_count_before(items, at, k);
        lemma_bytes_order(at, raw);
    }
    lemma_nothing_shown(passed, raw, lsn);
    lemma_first_version_parts(passed, stride.handed_out(), raw, lsn);
}

/// The tree only grows during an iteration.
proof fn lemma_strides_extend(root: Page, iter: TreeIter, strides: Seq<Stride>, n: int)
    requires
        is_iteration(root, iter, strides),
        is_ready(root, iter, strides),
        0 <= n < strides.len(),
    ensures
        extends(strides[n].last(), strides.last().last()),
    decreases strides.len() - n,
{
    let last = strides[n].last();
    if n + 1 < strides.len() {
        assert(is_stride(root, iter, strides, n + 1));
        law_each_page_follows(root, iter, strides, n + 1);
        lemma_strides_extend(root, iter, strides, n + 1);
        lemma_extends_transitive(last, strides[n + 1].first(), strides[n + 1].last());
        lemma_extends_transitive(last, strides[n + 1].last(), strides.last().last());
    } else {
        assert(last =~= last.take(last.len() as int));
    }
}

/// An iteration that has come to its end has shown each key from where it began on just once:
/// one page shows of the key what its last write has stored that the reader may see, and no
/// other page hands the key out. Splits and consolidations may happen meanwhile, and so may
/// writes of other keys and later writes.
pub proof fn law_iteration_shows_each_key_once(
    root: Page,
    iter: TreeIter,
    strides: Seq<Stride>,
    from: Seq<u8>,
    raw: Seq<u8>,
    lsn: u64,
)
    requires
        strides.len() > 0,
        is_iteration(root, iter, strides),
        is_ready(root, iter, strides),
        came_to(iter) == Some(from),
        came_to(strides.last().after) is None,
        bytes_le(from, raw),
        is_safe(strides.last().last(), lsn),
        is_untouched(strides[0].first(), strides.last().last(), raw, lsn),
    ensures
        exists|n: int|
            0 <= n < strides.len() && #[trigger] shown(strides[n].handed_out(), raw, lsn)
                == last_written(strides[0].first(), raw, lsn) && forall|m: int, k: int|
                0 <= m < strides.len() && m != n && 0 <= k < strides[m].handed_out().len()
                    ==> (#[trigger] strides[m].handed_out()[k]).0.raw@ != raw,
{
    let n = lemma_step_of(root, iter, strides, raw, 0);
    lemma_step_shows(root, iter, strides, raw, lsn, n);
    assert forall|m: int, k: int|
        0 <= m < strides.len() && m != n && 0 <= k
            < strides[m].handed_out().len() implies (#[trigger] strides[m].handed_out()[k]).0.raw@
        != raw by {
        let other = strides[m].handed_out()[k].0.raw@;
        lemma_handed_out(root, iter, strides, m);
        if m < n {
            let end = came_to(strides[m].after)->0;
            let at = position(iter, strides, n);
            lemma_positions_rise(root, iter, strides, m, n);
            if end != at {
                lemma_bytes_transitive(other, end, at);
            }
            if at != raw {
                lemma_bytes_transitive(other, at, raw);
            }
            lemma_bytes_irreflexive(raw);
        } else {
            let end = came_to(strides[n].after)->0;
            let at = position(iter, strides, m);
            lemma_positions_rise(root, iter, strides, n, m);
            if end != at {
                lemma_bytes_transitive(raw, end, at);
            }
            if at != other {
                lemma_bytes_transitive(raw, at, other);
            }
            lemma_bytes_irreflexive(raw);
        }
    }
}

/// An iteration that has come to its end has handed out, of the keys from where it began on,
/// those that hold something for its reader, with what their last writes have stored that the
/// reader may see.
pub proof fn law_iteration_hands_out_the_last_writes(
    root: Page,
    iter: TreeIter,
    strides: Seq<Stride>,
    from: Seq<u8>,
    raw: Seq<u8>,
    value: Seq<u8>,
)
    requires
        strides.len() > 0,
        is_iteration(root, iter, strides),
        is_ready(root, iter, strides),
        came_to(iter) == Some(from),
        came_to(strides.last().after) is None,
        bytes_le(from, raw),
        is_safe(strides.last().last(), iter.options.max_lsn),
        is_untouched(
            strides[0].first(),
            strides.last().last(),
            raw,
            iter.options.max_lsn,
        ),
    ensures
        (exists|m: int|
            0 <= m < strides.len() && (#[trigger] strides[m]).page.entries().contains(
                (raw, value),
            )) <==> last_written(strides[0].first(), raw, iter.options.max_lsn) == Some(value),
{
    let lsn = iter.options.max_lsn;
    law_iteration_shows_each_key_once(root, iter, strides, from, raw, lsn);
    let n = choose|n: int|
        0 <= n < strides.len() && #[trigger] shown(strides[n].handed_out(), raw, lsn)
            == last_written(strides[0].first(), raw, lsn) && forall|m: int, k: int|
            0 <= m < strides.len() && m != n && 0 <= k < strides[m].handed_out().len()
                ==> (#[trigger] strides[m].handed_out()[k]).0.raw@ != raw;
    assert forall|m: int|
        0 <= m < strides.len() implies ((#[trigger] strides[m]).page.entries().contains(
        (raw, value),
    ) <==> shown(strides[m].handed_out(), raw, lsn) == Some(value)) by {
        law_each_page_follows(root, iter, strides, m);
        lemma_handed_out(root, iter, strides, m);
        law_entries_are_what_a_reader_sees(strides[m].handed_out(), lsn, raw, value);
    }
    if exists|m: int|
        0 <= m < strides.len() && (#[trigger] strides[m]).page.entries().contains((raw, value)) {
        let m = choose|m: int|
            0 <= m < strides.len() && (#[trigger] strides[m]).page.entries().contains(
                (raw, value),
            );
        if m != n {
            lemma_nothing_shown(strides[m].handed_out(), raw, lsn);
        }
    }
    if shown(strides[n].handed_out(), raw, lsn) == Some(value) {
        assert(strides[n].page.entries().contains((raw, value)));
    }
}

/// An iteration hands out its entries in the order of their keys: all entries of a page come
/// before those of the pages that follow.
pub proof fn law_iteration_hands_out_in_key_order(
    root: Page,
    iter: TreeIter,
    strides: Seq<Stride>,
    m: int,
    n: int,
    k: int,
    l: int,
)
    requires
        is_iteration(root, iter, strides),
        is_ready(root, iter, strides),
        0 <= m < n < strides.len(),
        0 <= k < strides[m].page.entries().len(),
        0 <= l < strides[n].page.entries().len(),
    ensures
        bytes_lt(strides[m].page.entries()[k].0, strides[n].page.entries()[l].0),
{
    let a = strides[m].handed_out();
    let b = strides[n].handed_out();
    lemma_handed_out(root, iter, strides, m);
    lemma_handed_out(root, iter, strides, n);
    lemma_entry_is_shown(a, strides[m].page.max_lsn, k);
    lemma_entry_is_shown(b, strides[n].page.max_lsn, l);
    let i = choose|i: int|
        0 <= i < a.len() && (#[trigger] a[i]).0.raw@ == strides[m].page.entries()[k].0;
    let j = choose|j: int|
        0 <= j < b.len() && (#[trigger] b[j]).0.raw@ == strides[n].page.entries()[l].0;
    law_iteration_goes_in_key_order(root, iter, strides, m, n, i, j);
}

} // verus!
