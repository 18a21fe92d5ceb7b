//! What reports add to the counts and timings.

use crate::note::{Counter, Note, Timing};
use crate::perf::{duration_nanos, PerfCtx};
use crate::tree::{counted, raised, TreeStats, TxnStats};
use std::time::Duration;
use vstd::arithmetic::div_mod::lemma_fundamental_div_mod;
use vstd::prelude::*;

verus! {

/// How often an operation was counted.
pub open spec fn count_of(stats: TxnStats, counter: Counter) -> u64 {
    match counter {
        Counter::Read => stats.read,
        Counter::Write => stats.write,
        Counter::SplitPage => stats.split_page,
        Counter::ReconcilePage => stats.reconcile_page,
        Counter::ConsolidatePage => stats.consolidate_page,
    }
}

/// The counter has gone on by a number, and has started again at zero as often as it had to.
pub open spec fn goes_on_by(before: u64, n: int, after: u64) -> bool {
    let all: int = 0x1_0000_0000_0000_0000;
    ||| before + n == after
    ||| before + n == after + all
    ||| before + n == after + 2 * all
}

proof fn lemma_goes_on(before: u64, n: nat)
    requires
        n <= 2 * usize::MAX,
    ensures
        goes_on_by(before, n as int, counted(before, n)),
{
    let all: int = 0x1_0000_0000_0000_0000;
    let sum = before + n;
    lemma_fundamental_div_mod(sum, all);
    assert(0 <= sum % all < all);
    assert(sum < 3 * all);
}

/// The counts agree in everything but how often the operation was counted.
pub open spec fn agree_but_for(a: TxnStats, b: TxnStats, counter: Counter) -> bool {
    &&& a.read_bytes == b.read_bytes
    &&& a.write_bytes == b.write_bytes
    &&& forall|other: Counter| other != counter ==> #[trigger] count_of(a, other) == count_of(
        b,
        other,
    )
}

/// An operation that succeeded is counted once among those that succeeded, and one that met a
/// conflict once among those that did; no other count changes.
pub proof fn law_operations_are_counted_once(stats: TreeStats, counter: Counter)
    ensures
        ({
            let after = stats.after(Note::Success(counter));
            &&& after.conflict == stats.conflict
            &&& agree_but_for(stats.success, after.success, counter)
            &&& goes_on_by(count_of(stats.success, counter), 1, count_of(after.success, counter))
        }),
        ({
            let after = stats.after(Note::Conflict(counter));
            &&& after.success == stats.success
            &&& agree_but_for(stats.conflict, after.conflict, counter)
            &&& goes_on_by(count_of(stats.conflict, counter), 1, count_of(after.conflict, counter))
        }),
{
    lemma_goes_on(count_of(stats.success, counter), 1);
    lemma_goes_on(count_of(stats.conflict, counter), 1);
    match counter {
        Counter::Read => {},
        Counter::Write => {},
        Counter::SplitPage => {},
        Counter::ReconcilePage => {},
        Counter::ConsolidatePage => {},
    }
}

/// The bytes of a key and of its value are both counted, those that were read and those that
/// were written apart; no other count changes, and no other report changes a count.
pub proof fn law_bytes_are_counted(stats: TreeStats, key: usize, value: usize, note: Note)
    ensures
        ({
            let after = stats.after(Note::ReadBytes { key, value });
            &&& after.conflict == stats.conflict
            &&& after.success.write_bytes == stats.success.write_bytes
            &&& forall|c: Counter| #[trigger]
                count_of(after.success, c) == count_of(stats.success, c)
            &&& goes_on_by(stats.success.read_bytes, key + value, after.success.read_bytes)
        }),
        ({
            let after = stats.after(Note::WriteBytes { key, value });
            &&& after.conflict == stats.conflict
            &&& after.success.read_bytes == stats.success.read_bytes
            &&& forall|c: Counter| #[trigger]
                count_of(after.success, c) == count_of(stats.success, c)
            &&& goes_on_by(stats.success.write_bytes, key + value, after.success.write_bytes)
        }),
        (note is Time || note is ConsolidatePageSize || note is ConsolidateLength
            || note is ReturnCold) ==> stats.after(note) == stats,
{
    lemma_goes_on(stats.success.read_bytes, (key + value) as nat);
    lemma_goes_on(stats.success.write_bytes, (key + value) as nat);
}

/// At first nothing is counted, and no bytes either.
pub proof fn law_counts_start_at_zero(counter: Counter)
    ensures
        count_of(TxnStats::zero(), counter) == 0,
        TxnStats::zero().read_bytes == 0,
        TxnStats::zero().write_bytes == 0,
{
}

/// The safe sequence number becomes the greater one of the old and the requested one.
pub proof fn law_safe_number_is_the_greatest_requested(safe_lsn: u64, lsn: u64)
    ensures
        lsn > safe_lsn ==> raised(safe_lsn, lsn) == lsn,
        lsn <= safe_lsn ==> raised(safe_lsn, lsn) == safe_lsn,
{
}

/// The timings of whole operations, of searches for a leaf page or a value and of building a
/// page are those of the last operation.
pub open spec fn is_of_the_last(timing: Timing) -> bool {
    timing is Total || timing is FindLeaf || timing is FindValue || timing is WriteBuildPage
}

/// The timing that a context holds.
pub open spec fn time_of(ctx: PerfCtx, timing: Timing) -> nat {
    duration_nanos(
        match timing {
            Timing::Total => ctx.total,
            Timing::FindLeaf => ctx.find_leaf,
            Timing::FindValue => ctx.find_value,
            Timing::WriteBuildPage => ctx.write_build_page,
            Timing::ReplacePage => ctx.replace_page,
            Timing::CollectInfo => ctx.collect_info,
            Timing::ConsolidatePage => ctx.consolidate_page,
            Timing::SplitPage => ctx.split_page,
        },
    )
}

/// The contexts agree in what no timing is for.
pub open spec fn agree_apart_from_timings(a: PerfCtx, b: PerfCtx) -> bool {
    &&& a.get_page_info == b.get_page_info
    &&& a.get_page == b.get_page
    &&& a.get_page_from_cache_count == b.get_page_from_cache_count
    &&& a.get_page_from_cache_miss_count == b.get_page_from_cache_miss_count
    &&& a.get_page_info_count == b.get_page_info_count
}

/// A report of how long something took sets its timing, or adds to it, and changes no other
/// one. Time does not run backwards, and a timing stops at the greatest duration.
pub proof fn law_times_are_recorded(
    ctx: PerfCtx,
    timing: Timing,
    from: Duration,
    to: Duration,
    after: PerfCtx,
)
    requires
        ctx.records(Note::Time(timing, from, to), after),
    ensures
        ({
            let begun = duration_nanos(from) as int;
            let ended = duration_nanos(to) as int;
            let spent: int = if ended > begun {
                ended - begun
            } else {
                0
            };
            let longest = 0xffff_ffff_ffff_ffffint * 1_000_000_000int + 999_999_999int;
            let sum: int = time_of(ctx, timing) + spent;
            time_of(after, timing) as int == if is_of_the_last(timing) {
                spent
            } else if sum > longest {
                longest
            } else {
                sum
            }
        }),
        forall|other: Timing|
            other != timing ==> #[trigger] time_of(after, other) == time_of(ctx, other),
        agree_apart_from_timings(ctx, after),
        after.consolidate_page_size == ctx.consolidate_page_size,
        after.consolidate_length == ctx.consolidate_length,
{
}

/// The sizes and lengths of consolidations add up, as far as there is room for them; other
/// reports change nothing.
pub proof fn law_consolidations_add_up(ctx: PerfCtx, n: usize, note: Note, after: PerfCtx)
    requires
        ctx.records(note, after),
    ensures
        note == Note::ConsolidatePageSize(n) && ctx.consolidate_page_size + n <= usize::MAX ==> {
            &&& after.consolidate_page_size == ctx.consolidate_page_size + n
            &&& after.consolidate_length == ctx.consolidate_length
        },
        note == Note::ConsolidateLength(n) && ctx.consolidate_length + n <= usize::MAX ==> {
            &&& after.consolidate_page_size == ctx.consolidate_page_size
            &&& after.consolidate_length == ctx.consolidate_length + n
        },
        note is ConsolidatePageSize || note is ConsolidateLength ==> {
            &&& agree_apart_from_timings(ctx, after)
            &&& forall|t: Timing| #[trigger] time_of(after, t) == time_of(ctx, t)
        },
        (note is Success || note is Conflict || note is ReadBytes || note is WriteBytes
            || note is ReturnCold) ==> after == ctx,
        note == Note::ConsolidatePageSize(n) ==> (ctx.has_room(note) <==> ctx.consolidate_page_size
            + n <= usize::MAX),
        note == Note::ConsolidateLength(n) ==> (ctx.has_room(note) <==> ctx.consolidate_length + n
            <= usize::MAX),
        !(note is ConsolidatePageSize) && !(note is ConsolidateLength) ==> ctx.has_room(note),
{
}

/// A context in which nothing is recorded holds zeros only.
pub proof fn law_empty_context_holds_zeros(ctx: PerfCtx, timing: Timing)
    ensures
        ctx.is_zero() ==> {
            &&& time_of(ctx, timing) == 0
            &&& duration_nanos(ctx.get_page_info) == 0
            &&& duration_nanos(ctx.get_page) == 0
            &&& ctx.get_page_from_cache_count == 0
            &&& ctx.get_page_from_cache_miss_count == 0
            &&& ctx.get_page_info_count == 0
            &&& ctx.consolidate_page_size == 0
            &&& ctx.consolidate_length == 0
        },
{
}

} // verus!
