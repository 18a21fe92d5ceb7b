//! What the steps of an operation report besides their results.

use std::time::Duration;
use vstd::prelude::*;

verus! {

/// The counters that exist for operations that succeeded and for those that met a
/// conflict.
#[derive(Clone, Copy, Debug, PartialEq, Eq, Structural)]
pub enum Counter {
    Read,
    Write,
    SplitPage,
    ReconcilePage,
    ConsolidatePage,
}

/// The timings that are taken.
#[derive(Clone, Copy, Debug, PartialEq, Eq, Structural)]
pub enum Timing {
    Total,
    FindLeaf,
    FindValue,
    WriteBuildPage,
    ReplacePage,
    CollectInfo,
    ConsolidatePage,
    SplitPage,
}

/// One report.
#[derive(Clone, Copy, Debug)]
pub enum Note {
    /// An operation succeeded.
    Success(Counter),
    /// An operation gave way to another one.
    Conflict(Counter),
    /// So many bytes of a key and of its value were read.
    ReadBytes { key: usize, value: usize },
    /// So many bytes of a key and of its value were written.
    WriteBytes { key: usize, value: usize },
    /// Something took from one point in time to another.
    Time(Timing, Duration, Duration),
    /// The size of the pages that are about to be consolidated.
    ConsolidatePageSize(usize),
    /// The number of the pages that are about to be consolidated.
    ConsolidateLength(usize),
    /// The page that was read last need not be kept in the cache.
    ReturnCold,
}

} // verus!
