//! The state of a tree that its transactions share.

use crate::note::{Counter, Note};
use crate::page::{PageInfo, PageTier};
use vstd::prelude::*;

verus! {

/// Options of a tree.
#[derive(Clone, Copy, Debug, PartialEq, Eq, Structural)]
pub struct Options {
    /// Leaf pages that are larger than this are split.
    pub page_size: usize,
    /// Chains of leaf pages that are longer than this are consolidated.
    pub page_chain_length: usize,
}

/// Options of a reader.
#[derive(Clone, Copy, Debug, PartialEq, Eq, Structural)]
pub struct ReadOptions {
    /// Writes after this one are not seen.
    pub max_lsn: u64,
}

/// Counts of operations.
#[derive(Clone, Copy, Debug, PartialEq, Eq, Structural)]
pub struct TxnStats {
    pub read: u64,
    pub write: u64,
    pub read_bytes: u64,
    pub write_bytes: u64,
    pub split_page: u64,
    pub reconcile_page: u64,
    pub consolidate_page: u64,
}

/// Counts of the operations that succeeded, and of those that met a conflict.
#[derive(Clone, Copy, Debug, PartialEq, Eq, Structural)]
pub struct TreeStats {
    pub success: TxnStats,
    pub conflict: TxnStats,
}

/// The sum of a counter and a number. Counters start again at zero after their greatest
/// value.
pub open spec fn counted(counter: u64, n: nat) -> u64 {
    ((counter + n) % 0x1_0000_0000_0000_0000) as u64
}

fn count_on(counter: u64, n: u64) -> (r: u64)
    ensures
        r == counted(counter, n as nat),
{
    counter.wrapping_add(n)
}

proof fn lemma_counted_twice(counter: u64, a: nat, b: nat)
    ensures
        counted(counted(counter, a), b) == counted(counter, a + b),
{
    vstd::arithmetic::div_mod::lemma_add_mod_noop(
        counter + a,
        b as int,
        0x1_0000_0000_0000_0000,
    );
    vstd::arithmetic::div_mod::lemma_add_mod_noop(
        ((counter + a) % 0x1_0000_0000_0000_0000) as int,
        b as int,
        0x1_0000_0000_0000_0000,
    );
    vstd::arithmetic::div_mod::lemma_mod_twice(counter + a, 0x1_0000_0000_0000_0000);
}

impl TxnStats {
    /// Nothing has been counted.
    pub open spec fn zero() -> TxnStats {
        TxnStats {
            read: 0,
            write: 0,
            read_bytes: 0,
            write_bytes: 0,
            split_page: 0,
            reconcile_page: 0,
            consolidate_page: 0,
        }
    }

    /// The counts after one more operation.
    pub open spec fn after(self, counter: Counter) -> TxnStats {
        match counter {
            Counter::Read => TxnStats { read: counted(self.read, 1), ..self },
            Counter::Write => TxnStats { write: counted(self.write, 1), ..self },
            Counter::SplitPage => TxnStats { split_page: counted(self.split_page, 1), ..self },
            Counter::ReconcilePage => TxnStats {
                reconcile_page: counted(self.reconcile_page, 1),
                ..self
            },
            Counter::ConsolidatePage => TxnStats {
                consolidate_page: counted(self.consolidate_page, 1),
                ..self
            },
        }
    }

    fn new() -> (r: TxnStats)
        ensures
            r == TxnStats::zero(),
    {
        TxnStats {
            read: 0,
            write: 0,
            read_bytes: 0,
            write_bytes: 0,
            split_page: 0,
            reconcile_page: 0,
            consolidate_page: 0,
        }
    }

    fn inc(&mut self, counter: Counter)
        ensures
            *final(self) == old(self).after(counter),
    {
        match counter {
            Counter::Read => {
                self.read = count_on(self.read, 1);
            },
            Counter::Write => {
                self.write = count_on(self.write, 1);
            },
            Counter::SplitPage => {
                self.split_page = count_on(self.split_page, 1);
            },
            Counter::ReconcilePage => {
                self.reconcile_page = count_on(self.reconcile_page, 1);
            },
            Counter::ConsolidatePage => {
                self.consolidate_page = count_on(self.consolidate_page, 1);
            },
        }
    }
}

impl TreeStats {
    /// The counts after a report.
    pub open spec fn after(self, note: Note) -> TreeStats {
        match note {
            Note::Success(counter) => TreeStats { success: self.success.after(counter), ..self },
            Note::Conflict(counter) => TreeStats {
                conflict: self.conflict.after(counter),
                ..self
            },
            Note::ReadBytes { key, value } => TreeStats {
                success: TxnStats {
                    read_bytes: counted(self.success.read_bytes, (key + value) as nat),
                    ..self.success
                },
                ..self
            },
            Note::WriteBytes { key, value } => TreeStats {
                success: TxnStats {
                    write_bytes: counted(self.success.write_bytes, (key + value) as nat),
                    ..self.success
                },
                ..self
            },
            _ => self,
        }
    }
}

/// The state of a tree that its transactions share.
pub struct Tree {
    options: Options,
    stats: TreeStats,
    safe_lsn: u64,
}

/// The safe sequence number after it was asked to be `lsn`: it never goes back.
pub open spec fn raised(safe_lsn: u64, lsn: u64) -> u64 {
    if safe_lsn >= lsn {
        safe_lsn
    } else {
        lsn
    }
}

impl Tree {
    pub closed spec fn spec_options(&self) -> Options {
        self.options
    }

    pub closed spec fn spec_stats(&self) -> TreeStats {
        self.stats
    }

    pub closed spec fn spec_safe_lsn(&self) -> u64 {
        self.safe_lsn
    }

    pub fn new(options: Options) -> (r: Self)
        ensures
            r.spec_options() == options,
            r.spec_stats() == (TreeStats { success: TxnStats::zero(), conflict: TxnStats::zero() }),
            r.spec_safe_lsn() == 0,
    {
        Tree {
            options,
            stats: TreeStats { success: TxnStats::new(), conflict: TxnStats::new() },
            safe_lsn: 0,
        }
    }

    /// The options of the tree.
    pub fn options(&self) -> (r: Options)
        ensures
            r == self.spec_options(),
    {
        self.options
    }

    /// Starts a transaction.
    pub fn begin(&self) -> (r: TreeTxn<'_>)
        ensures
            r.options() == self.spec_options(),
            r.safe_lsn() == self.spec_safe_lsn(),
    {
        TreeTxn::new(self)
    }

    /// The counts so far.
    pub fn stats(&self) -> (r: TreeStats)
        ensures
            r == self.spec_stats(),
    {
        self.stats
    }

    /// The sequence number up to which old versions may be dropped.
    pub fn safe_lsn(&self) -> (r: u64)
        ensures
            r == self.spec_safe_lsn(),
    {
        self.safe_lsn
    }

    /// Raises the safe sequence number to `lsn`, unless it is there already.
    pub fn set_safe_lsn(&mut self, lsn: u64)
        ensures
            final(self).spec_safe_lsn() == raised(old(self).spec_safe_lsn(), lsn),
            final(self).spec_options() == old(self).spec_options(),
            final(self).spec_stats() == old(self).spec_stats(),
    {
        // Make sure that the safe LSN is increasing.
        if self.safe_lsn >= lsn {
            return;
        }
        self.safe_lsn = lsn;
    }

    /// Counts what a step has reported.
    pub fn record(&mut self, note: &Note)
        ensures
            final(self).spec_stats() == old(self).spec_stats().after(*note),
            final(self).spec_options() == old(self).spec_options(),
            final(self).spec_safe_lsn() == old(self).spec_safe_lsn(),
    {
        match note {
            Note::Success(counter) => {
                self.stats.success.inc(*counter);
            },
            Note::Conflict(counter) => {
                self.stats.conflict.inc(*counter);
            },
            Note::ReadBytes { key, value } => {
                let first: u64 = count_on(self.stats.success.read_bytes, *key as u64);
                proof {
                    lemma_counted_twice(
                        self.stats.success.read_bytes,
                        *key as nat,
                        *value as nat,
                    );
                }
                self.stats.success.read_bytes = count_on(first, *value as u64);
            },
            Note::WriteBytes { key, value } => {
                let first: u64 = count_on(self.stats.success.write_bytes, *key as u64);
                proof {
                    lemma_counted_twice(
                        self.stats.success.write_bytes,
                        *key as nat,
                        *value as nat,
                    );
                }
                self.stats.success.write_bytes = count_on(first, *value as u64);
            },
            _ => {},
        }
    }
}

/// A transaction on a tree.
pub struct TreeTxn<'a> {
    tree: &'a Tree,
}

/// The size beyond which pages of this tier are split.
pub open spec fn max_page_size(options: Options, tier: PageTier) -> int {
    if tier is Inner {
        options.page_size as int / 2
    } else {
        options.page_size as int
    }
}

/// The chain length beyond which pages of this tier are consolidated.
pub open spec fn max_chain_len(options: Options, tier: PageTier) -> int {
    let max = if tier is Inner {
        options.page_chain_length as int / 2
    } else {
        options.page_chain_length as int
    };
    if max < 1 {
        1
    } else {
        max
    }
}

/// The page is too large, and stands alone.
pub open spec fn splits(options: Options, page: PageInfo) -> bool {
    page.size > max_page_size(options, page.tier) && page.chain_next == 0
}

/// The chain that starts with the page is too long.
pub open spec fn consolidates(options: Options, page: PageInfo) -> bool {
    page.chain_len > max_chain_len(options, page.tier)
}

impl<'a> TreeTxn<'a> {
    pub closed spec fn options(&self) -> Options {
        self.tree.options
    }

    pub closed spec fn safe_lsn(&self) -> u64 {
        self.tree.safe_lsn
    }

    pub fn new(tree: &'a Tree) -> (r: Self)
        ensures
            r.options() == tree.spec_options(),
            r.safe_lsn() == tree.spec_safe_lsn(),
    {
        TreeTxn { tree }
    }

    /// The safe sequence number of the tree.
    pub fn tree_safe_lsn(&self) -> (r: u64)
        ensures
            r == self.safe_lsn(),
    {
        self.tree.safe_lsn()
    }

    /// Returns true if the page should be split.
    pub fn should_split_page(&self, page: &PageInfo) -> (r: bool)
        ensures
            r == splits(self.options(), *page),
    {
        let mut max_size: usize = self.tree.options.page_size;
        if page.tier.is_inner() {
            // Adjust the page size for inner pages.
            max_size = max_size / 2;
        }
        page.size > max_size && page.chain_next == 0
    }

    /// Returns true if the page should be consolidated.
    pub fn should_consolidate_page(&self, page: &PageInfo) -> (r: bool)
        ensures
            r == consolidates(self.options(), *page),
    {
        let mut max_chain_len: usize = self.tree.options.page_chain_length;
        if page.tier.is_inner() {
            // Adjust the chain length for inner pages.
            max_chain_len = max_chain_len / 2;
        }
        if max_chain_len < 1 {
            max_chain_len = 1;
        }
        page.chain_len as usize > max_chain_len
    }
}

/// The safe sequence number never goes back, and every request for one is met or has
/// been overtaken; the order of two requests does not matter.
pub proof fn law_safe_lsn_only_rises(safe_lsn: u64, first: u64, second: u64)
    ensures
        raised(safe_lsn, first) >= safe_lsn,
        raised(safe_lsn, first) >= first,
        raised(safe_lsn, first) == safe_lsn || raised(safe_lsn, first) == first,
        raised(raised(safe_lsn, first), second) == raised(raised(safe_lsn, second), first),
{
}

} // verus!
