use photondb::note::{Counter, Note, Timing};
use photondb::perf::{reset_perf_ctx, with, PerfCtx};
use photondb::tree::{Options, Tree};
use std::time::Duration;

fn nanos(n: u64) -> Duration {
    Duration::from_nanos(n)
}

#[test]
fn with_hands_the_context_to_the_function() {
    let mut ctx = PerfCtx::default();
    let n = with(&mut ctx, |c| {
        c.set_total(Duration::from_nanos(7));
        3u32
    });
    assert_eq!(n, 3);
    assert_eq!(ctx.total, Duration::from_nanos(7));
}

#[test]
fn a_reset_sets_everything_to_zero() {
    let mut ctx = PerfCtx::default();
    ctx.set_total(nanos(1));
    ctx.set_find_leaf(nanos(2));
    ctx.set_find_value(nanos(3));
    ctx.set_write_build_page(nanos(4));
    ctx.add_replace_page(nanos(5));
    ctx.add_collect_info(nanos(6));
    ctx.add_get_page_info(nanos(7));
    ctx.add_get_page(nanos(8));
    ctx.add_consolidate_page(nanos(9));
    ctx.add_split_page(nanos(10));
    ctx.inc_get_page_from_cache_count();
    ctx.inc_get_page_from_cache_miss_count();
    ctx.inc_get_page_info_count();
    ctx.add_consolidate_page_size(11);
    ctx.add_consolidate_length(12);
    reset_perf_ctx(&mut ctx);
    assert_eq!(ctx.total, Duration::ZERO);
    assert_eq!(ctx.find_leaf, Duration::ZERO);
    assert_eq!(ctx.find_value, Duration::ZERO);
    assert_eq!(ctx.write_build_page, Duration::ZERO);
    assert_eq!(ctx.replace_page, Duration::ZERO);
    assert_eq!(ctx.collect_info, Duration::ZERO);
    assert_eq!(ctx.get_page_info, Duration::ZERO);
    assert_eq!(ctx.get_page, Duration::ZERO);
    assert_eq!(ctx.consolidate_page, Duration::ZERO);
    assert_eq!(ctx.split_page, Duration::ZERO);
    assert_eq!(ctx.get_page_from_cache_count, 0);
    assert_eq!(ctx.get_page_from_cache_miss_count, 0);
    assert_eq!(ctx.get_page_info_count, 0);
    assert_eq!(ctx.consolidate_page_size, 0);
    assert_eq!(ctx.consolidate_length, 0);
}

#[test]
fn some_timings_are_replaced_and_others_add_up() {
    let mut ctx = PerfCtx::default();
    ctx.set_total(nanos(5));
    ctx.set_total(nanos(6));
    assert_eq!(ctx.total, nanos(6));
    ctx.add_get_page(nanos(5));
    ctx.add_get_page(nanos(6));
    assert_eq!(ctx.get_page, nanos(11));
    ctx.add_get_page(Duration::MAX);
    assert_eq!(ctx.get_page, Duration::MAX);
    ctx.inc_get_page_info_count();
    ctx.inc_get_page_info_count();
    assert_eq!(ctx.get_page_info_count, 2);
    ctx.add_consolidate_length(3);
    ctx.add_consolidate_length(4);
    assert_eq!(ctx.consolidate_length, 7);
}

#[test]
fn reports_of_time_reach_their_timing() {
    let mut ctx = PerfCtx::default();
    let timings = [
        Timing::Total,
        Timing::FindLeaf,
        Timing::FindValue,
        Timing::WriteBuildPage,
        Timing::ReplacePage,
        Timing::CollectInfo,
        Timing::ConsolidatePage,
        Timing::SplitPage,
    ];
    for (i, timing) in timings.into_iter().enumerate() {
        let note = Note::Time(timing, nanos(100), nanos(101 + i as u64));
        assert!(ctx.can_record(&note));
        ctx.record(&note);
        ctx.record(&note);
    }
    assert_eq!(ctx.total, nanos(1));
    assert_eq!(ctx.find_leaf, nanos(2));
    assert_eq!(ctx.find_value, nanos(3));
    assert_eq!(ctx.write_build_page, nanos(4));
    assert_eq!(ctx.replace_page, nanos(10));
    assert_eq!(ctx.collect_info, nanos(12));
    assert_eq!(ctx.consolidate_page, nanos(14));
    assert_eq!(ctx.split_page, nanos(16));
    // Time that seems to run backwards counts as none.
    ctx.record(&Note::Time(Timing::Total, nanos(9), nanos(3)));
    assert_eq!(ctx.total, Duration::ZERO);
}

#[test]
fn a_counter_without_room_is_noticed() {
    let mut ctx = PerfCtx::default();
    ctx.record(&Note::ConsolidatePageSize(usize::MAX - 1));
    assert!(ctx.can_record(&Note::ConsolidatePageSize(1)));
    assert!(!ctx.can_record(&Note::ConsolidatePageSize(2)));
    ctx.record(&Note::ConsolidateLength(usize::MAX));
    assert!(ctx.can_record(&Note::ConsolidateLength(0)));
    assert!(!ctx.can_record(&Note::ConsolidateLength(1)));
    assert!(ctx.can_record(&Note::ReturnCold));
    ctx.record(&Note::Success(Counter::Read));
    assert_eq!(ctx.consolidate_page_size, usize::MAX - 1);
}

#[test]
fn counts_of_bytes_start_again_after_the_greatest_number() {
    let mut tree = Tree::new(Options { page_size: 1, page_chain_length: 1 });
    tree.record(&Note::ReadBytes { key: usize::MAX, value: 0 });
    assert_eq!(tree.stats().success.read_bytes, usize::MAX as u64);
    tree.record(&Note::ReadBytes { key: 2, value: 3 });
    assert_eq!(tree.stats().success.read_bytes, (usize::MAX as u64).wrapping_add(5));
    tree.record(&Note::Conflict(Counter::ConsolidatePage));
    tree.record(&Note::Success(Counter::ReconcilePage));
    tree.record(&Note::Success(Counter::SplitPage));
    let stats = tree.stats();
    assert_eq!(stats.conflict.consolidate_page, 1);
    assert_eq!(stats.success.reconcile_page, 1);
    assert_eq!(stats.success.split_page, 1);
    assert_eq!(stats.success.consolidate_page, 0);
}
