//! Counters and timings of the operations that one thread has performed.

use crate::note::{Note, Timing};
use std::time::Duration;
use vstd::prelude::*;

verus! {

/// The length of a duration in nanoseconds, as `Duration::as_nanos` reports it.
pub uninterp spec fn duration_nanos(d: Duration) -> nat;

/// The length of `Duration::MAX` in nanoseconds.
pub open spec fn max_nanos() -> nat {
    u64::MAX as nat * 1_000_000_000 + 999_999_999
}

/// The sum of two lengths, or the greatest length where the sum is beyond it.
pub open spec fn nanos_sum(a: nat, b: nat) -> nat {
    if a + b <= max_nanos() {
        a + b
    } else {
        max_nanos()
    }
}

/// `Duration::ZERO`: a duration without length.
#[verifier::external_body]
fn zero_duration() -> (d: Duration)
    ensures
        duration_nanos(d) == 0,
{
    Duration::ZERO
}

/// `Duration::saturating_add`: the sum of two durations, or `Duration::MAX` where the
/// sum is longer than that.
pub assume_specification[ Duration::saturating_add ](a: Duration, b: Duration) -> (d: Duration)
    ensures
        duration_nanos(d) == nanos_sum(duration_nanos(a), duration_nanos(b)),
;

/// The difference of two lengths, or nothing where the first is the shorter one.
pub open spec fn nanos_difference(a: nat, b: nat) -> nat {
    if a >= b {
        (a - b) as nat
    } else {
        0
    }
}

/// `Duration::saturating_sub`: the first duration without the second, or a duration without
/// length where the second is the longer one.
pub assume_specification[ Duration::saturating_sub ](a: Duration, b: Duration) -> (d: Duration)
    ensures
        duration_nanos(d) == nanos_difference(duration_nanos(a), duration_nanos(b)),
;

/// What one thread has spent on the operations of the tree.
#[derive(Debug)]
pub struct PerfCtx {
    pub total: Duration,
    pub find_leaf: Duration,
    pub find_value: Duration,
    pub write_build_page: Duration,
    pub replace_page: Duration,
    pub collect_info: Duration,
    pub get_page_info: Duration,
    pub get_page: Duration,
    pub consolidate_page: Duration,
    pub split_page: Duration,
    pub get_page_from_cache_count: u64,
    pub get_page_from_cache_miss_count: u64,
    pub get_page_info_count: u64,
    pub consolidate_page_size: usize,
    pub consolidate_length: usize,
}

/// Runs `f` on the context and returns what it returned.
pub fn with<F, R>(ctx: &mut PerfCtx, f: F) -> (r: R) where F: FnOnce(&mut PerfCtx) -> R
    requires
        forall|c: &mut PerfCtx| *c == *old(ctx) ==> #[trigger] call_requires(f, (c,)),
    ensures
        exists|c: &mut PerfCtx|
            *c == *old(ctx) && *final(c) == *final(ctx) && #[trigger] call_ensures(f, (c,), r),
{
    f(ctx)
}

/// Sets the context back to its first state.
pub fn reset_perf_ctx(ctx: &mut PerfCtx)
    ensures
        final(ctx).is_zero(),
{
    ctx.reset();
}

impl Default for PerfCtx {
    fn default() -> (r: Self)
        ensures
            r.is_zero(),
    {
        PerfCtx {
            total: zero_duration(),
            find_leaf: zero_duration(),
            find_value: zero_duration(),
            write_build_page: zero_duration(),
            replace_page: zero_duration(),
            collect_info: zero_duration(),
            get_page_info: zero_duration(),
            get_page: zero_duration(),
            consolidate_page: zero_duration(),
            split_page: zero_duration(),
            get_page_from_cache_count: 0,
            get_page_from_cache_miss_count: 0,
            get_page_info_count: 0,
            consolidate_page_size: 0,
            consolidate_length: 0,
        }
    }
}

impl PerfCtx {
    /// Nothing has been recorded.
    pub open spec fn is_zero(self) -> bool {
        &&& duration_nanos(self.total) == 0
        &&& duration_nanos(self.find_leaf) == 0
        &&& duration_nanos(self.find_value) == 0
        &&& duration_nanos(self.write_build_page) == 0
        &&& duration_nanos(self.replace_page) == 0
        &&& duration_nanos(self.collect_info) == 0
        &&& duration_nanos(self.get_page_info) == 0
        &&& duration_nanos(self.get_page) == 0
        &&& duration_nanos(self.consolidate_page) == 0
        &&& duration_nanos(self.split_page) == 0
        &&& self.get_page_from_cache_count == 0
        &&& self.get_page_from_cache_miss_count == 0
        &&& self.get_page_info_count == 0
        &&& self.consolidate_page_size == 0
        &&& self.consolidate_length == 0
    }

    /// Sets every counter and timing to zero.
    pub fn reset(&mut self)
        ensures
            final(self).is_zero(),
    {
        self.total = zero_duration();
        self.find_leaf = zero_duration();
        self.find_value = zero_duration();
        self.write_build_page = zero_duration();
        self.replace_page = zero_duration();
        self.collect_info = zero_duration();
        self.get_page = zero_duration();
        self.get_page_info = zero_duration();
        self.consolidate_page = zero_duration();
        self.split_page = zero_duration();
        self.get_page_from_cache_count = 0;
        self.get_page_from_cache_miss_count = 0;
        self.get_page_info_count = 0;
        self.consolidate_page_size = 0;
        self.consolidate_length = 0;
    }

    /// The counters have room for what a step has reported.
    pub open spec fn has_room(self, note: Note) -> bool {
        match note {
            Note::ConsolidatePageSize(size) => self.consolidate_page_size + size <= usize::MAX,
            Note::ConsolidateLength(len) => self.consolidate_length + len <= usize::MAX,
            _ => true,
        }
    }

    /// Tells whether the counters have room for what a step has reported.
    pub fn can_record(&self, note: &Note) -> (r: bool)
        ensures
            r == self.has_room(*note),
    {
        match note {
            Note::ConsolidatePageSize(size) => *size <= usize::MAX - self.consolidate_page_size,
            Note::ConsolidateLength(len) => *len <= usize::MAX - self.consolidate_length,
            _ => true,
        }
    }

    /// The timing in the context.
    pub open spec fn timing(self, timing: Timing) -> Duration {
        match timing {
            Timing::Total => self.total,
            Timing::FindLeaf => self.find_leaf,
            Timing::FindValue => self.find_value,
            Timing::WriteBuildPage => self.write_build_page,
            Timing::ReplacePage => self.replace_page,
            Timing::CollectInfo => self.collect_info,
            Timing::ConsolidatePage => self.consolidate_page,
            Timing::SplitPage => self.split_page,
        }
    }

    /// The context with another value for the timing.
    pub open spec fn with_timing(self, timing: Timing, value: Duration) -> PerfCtx {
        match timing {
            Timing::Total => PerfCtx { total: value, ..self },
            Timing::FindLeaf => PerfCtx { find_leaf: value, ..self },
            Timing::FindValue => PerfCtx { find_value: value, ..self },
            Timing::WriteBuildPage => PerfCtx { write_build_page: value, ..self },
            Timing::ReplacePage => PerfCtx { replace_page: value, ..self },
            Timing::CollectInfo => PerfCtx { collect_info: value, ..self },
            Timing::ConsolidatePage => PerfCtx { consolidate_page: value, ..self },
            Timing::SplitPage => PerfCtx { split_page: value, ..self },
        }
    }

    /// `after` is the context once a step has reported. The timings of whole operations and
    /// of searches are those of the last one; the others add up.
    pub open spec fn records(self, note: Note, after: PerfCtx) -> bool {
        match note {
            Note::Time(timing, from, to) => {
                let spent = nanos_difference(duration_nanos(to), duration_nanos(from));
                &&& after == self.with_timing(timing, after.timing(timing))
                &&& duration_nanos(after.timing(timing)) == match timing {
                    Timing::Total => spent,
                    Timing::FindLeaf => spent,
                    Timing::FindValue => spent,
                    Timing::WriteBuildPage => spent,
                    _ => nanos_sum(duration_nanos(self.timing(timing)), spent),
                }
            },
            Note::ConsolidatePageSize(size) => after == (PerfCtx {
                consolidate_page_size: (self.consolidate_page_size + size) as usize,
                ..self
            }),
            Note::ConsolidateLength(len) => after == (PerfCtx {
                consolidate_length: (self.consolidate_length + len) as usize,
                ..self
            }),
            _ => after == self,
        }
    }

    /// Takes in what a step has reported.
    pub fn record(&mut self, note: &Note)
        requires
            old(self).has_room(*note),
        ensures
            old(self).records(*note, *final(self)),
    {
        match note {
            Note::Time(timing, from, to) => {
                let spent = to.saturating_sub(*from);
                match timing {
                    Timing::Total => self.set_total(spent),
                    Timing::FindLeaf => self.set_find_leaf(spent),
                    Timing::FindValue => self.set_find_value(spent),
                    Timing::WriteBuildPage => self.set_write_build_page(spent),
                    Timing::ReplacePage => self.add_replace_page(spent),
                    Timing::CollectInfo => self.add_collect_info(spent),
                    Timing::ConsolidatePage => self.add_consolidate_page(spent),
                    Timing::SplitPage => self.add_split_page(spent),
                }
            },
            Note::ConsolidatePageSize(size) => self.add_consolidate_page_size(*size),
            Note::ConsolidateLength(len) => self.add_consolidate_length(*len),
            _ => {},
        }
    }

    pub fn set_find_leaf(&mut self, value: Duration)
        ensures
            *final(self) == (PerfCtx { find_leaf: value, ..*old(self) }),
    {
        self.find_leaf = value;
    }

    pub fn set_find_value(&mut self, value: Duration)
        ensures
            *final(self) == (PerfCtx { find_value: value, ..*old(self) }),
    {
        self.find_value = value;
    }

    pub fn set_write_build_page(&mut self, value: Duration)
        ensures
            *final(self) == (PerfCtx { write_build_page: value, ..*old(self) }),
    {
        self.write_build_page = value;
    }

    pub fn set_total(&mut self, value: Duration)
        ensures
            *final(self) == (PerfCtx { total: value, ..*old(self) }),
    {
        self.total = value;
    }

    pub fn add_consolidate_page(&mut self, value: Duration)
        ensures
            *final(self) == (PerfCtx {
                consolidate_page: final(self).consolidate_page,
                ..*old(self)
            }),
            duration_nanos(final(self).consolidate_page) == nanos_sum(
                duration_nanos(old(self).consolidate_page),
                duration_nanos(value),
            ),
    {
        self.consolidate_page = self.consolidate_page.saturating_add(value);
    }

    pub fn add_collect_info(&mut self, value: Duration)
        ensures
            *final(self) == (PerfCtx { collect_info: final(self).collect_info, ..*old(self) }),
            duration_nanos(final(self).collect_info) == nanos_sum(
                duration_nanos(old(self).collect_info),
                duration_nanos(value),
            ),
    {
        self.collect_info = self.collect_info.saturating_add(value);
    }

    pub fn add_get_page(&mut self, value: Duration)
        ensures
            *final(self) == (PerfCtx { get_page: final(self).get_page, ..*old(self) }),
            duration_nanos(final(self).get_page) == nanos_sum(
                duration_nanos(old(self).get_page),
                duration_nanos(value),
            ),
    {
        self.get_page = self.get_page.saturating_add(value);
    }

    pub fn add_get_page_info(&mut self, value: Duration)
        ensures
            *final(self) == (PerfCtx { get_page_info: final(self).get_page_info, ..*old(self) }),
            duration_nanos(final(self).get_page_info) == nanos_sum(
                duration_nanos(old(self).get_page_info),
                duration_nanos(value),
            ),
    {
        self.get_page_info = self.get_page_info.saturating_add(value);
    }

    pub fn add_replace_page(&mut self, value: Duration)
        ensures
            *final(self) == (PerfCtx { replace_page: final(self).replace_page, ..*old(self) }),
            duration_nanos(final(self).replace_page) == nanos_sum(
                duration_nanos(old(self).replace_page),
                duration_nanos(value),
            ),
    {
        self.replace_page = self.replace_page.saturating_add(value);
    }

    pub fn add_split_page(&mut self, value: Duration)
        ensures
            *final(self) == (PerfCtx { split_page: final(self).split_page, ..*old(self) }),
            duration_nanos(final(self).split_page) == nanos_sum(
                duration_nanos(old(self).split_page),
                duration_nanos(value),
            ),
    {
        self.split_page = self.split_page.saturating_add(value);
    }

    pub fn inc_get_page_from_cache_miss_count(&mut self)
        requires
            old(self).get_page_from_cache_miss_count < u64::MAX,
        ensures
            *final(self) == (PerfCtx {
                get_page_from_cache_miss_count: (old(self).get_page_from_cache_miss_count
                    + 1) as u64,
                ..*old(self)
            }),
    {
        self.get_page_from_cache_miss_count += 1;
    }

    pub fn inc_get_page_from_cache_count(&mut self)
        requires
            old(self).get_page_from_cache_count < u64::MAX,
        ensures
            *final(self) == (PerfCtx {
                get_page_from_cache_count: (old(self).get_page_from_cache_count + 1) as u64,
                ..*old(self)
            }),
    {
        self.get_page_from_cache_count += 1;
    }

    pub fn inc_get_page_info_count(&mut self)
        requires
            old(self).get_page_info_count < u64::MAX,
        ensures
            *final(self) == (PerfCtx {
                get_page_info_count: (old(self).get_page_info_count + 1) as u64,
                ..*old(self)
            }),
    {
        self.get_page_info_count += 1;
    }

    pub fn add_consolidate_page_size(&mut self, size: usize)
        requires
            old(self).consolidate_page_size + size <= usize::MAX,
        ensures
            *final(self) == (PerfCtx {
                consolidate_page_size: (old(self).consolidate_page_size + size) as usize,
                ..*old(self)
            }),
    {
        self.consolidate_page_size += size;
    }

    pub fn add_consolidate_length(&mut self, len: usize)
        requires
            old(self).consolidate_length + len <= usize::MAX,
        ensures
            *final(self) == (PerfCtx {
                consolidate_length: (old(self).consolidate_length + len) as usize,
                ..*old(self)
            }),
    {
        self.consolidate_length += len;
    }
}

} // verus!
