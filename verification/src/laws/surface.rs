//! What the public functions return, for every argument.

use crate::bytes::{bytes_copy, bytes_less, bytes_same};
use crate::consolidate::{consolidate_items, Collected, ConsolidateOp, ConsolidateTurn,
    ConsolidationInfo, Visit};
use crate::get::{GetOp, GetStage, GetTurn};
use crate::init::{InitOp, InitTurn};
use crate::iter::{Gather, InnerPageIter, NextPageOp, NextPageStage, NextPageTurn, PageIter,
    TreeIter};
use crate::laws::counting::{law_empty_context_holds_zeros, time_of};
use crate::laws::courses::{is_new_search, law_reconciliation_reads_the_split};
use crate::laws::dividing::{has_one_key_up_to_the_middle, is_first_of_the_middle, joins};
use crate::laws::finding::{bytes_of, can_be_seen, children_stand_in_order, is_below, is_newest_seen,
    law_page_names_the_child, law_page_says_what_its_newest_version_holds,
    law_pages_hold_their_keys_in_order, law_seeking_passes_over_what_is_before,
    versions_stand_in_order};
use crate::laws::keeping::{contents, is_replaced, is_useless, law_dead_children_are_dropped,
    law_limit_leaves_out_what_is_beyond, law_merging_keeps_everything,
    law_useless_versions_are_dropped, leads_nowhere, lemma_merged_pair_contents, stand_at};
use crate::laws::order::{lemma_merged_onto_ordered, lemma_merged_pair_ordered,
    lemma_sorted_is_ordered, ordered};
use crate::laws::renewing::{adds, is_left_alone, turn_into};
use crate::laws::stepping::{are_children, are_versions, can_be_gathered, gathers, is_place_of};
use crate::laws::upkeep::{is_too_large, is_too_long, one_more, starts_to_consolidate};
use crate::laws::words::{law_byte_strings_come_in_the_order_of_words,
    law_newer_versions_come_first};
use crate::lookup::{child_in_page, is_split_delta, split_delta_from_page, value_in_page};
use crate::merge::{drop_dead_children, drop_old_versions, limit_items, merge_pages, merge_pair,
    split_items};
use crate::note::{Note, Timing};
use crate::page::{position_lt, rank, sorted, Index, Items, Key, Page, PageHandle, PageHeader,
    PageInfo, PageKind, PageTier, PageView, Range, SortedPageKey, Value, ROOT_ID};
use crate::perf::{duration_nanos, reset_perf_ctx, with, PerfCtx};
use crate::reconcile::{ReconcileOp, ReconcileStage, ReconcileTurn};
use crate::restructure::{RestructureOp, RestructureTurn};
use crate::search::{FindLeafOp, FindLeafTurn};
use crate::split::{SplitOp, SplitStage, SplitTurn};
use crate::tree::{Options, ReadOptions, Tree, TreeStats, TreeTxn, TxnStats};
use crate::turn::{Action, CacheOption, Error, Event, Halt, Next, Turn};
use crate::write::{WriteOp, WriteStage, WriteTurn};
use std::time::Duration;
use vstd::prelude::*;

verus! {

/// A transaction goes by the options and the safe sequence number of its tree.
pub proof fn law_transactions_go_by_their_tree(
    tree: &Tree,
    begun: TreeTxn<'_>,
    txn: &TreeTxn<'_>,
    lsn: u64,
)
    requires
        call_ensures(Tree::begin, (tree,), begun),
        call_ensures(TreeTxn::tree_safe_lsn, (txn,), lsn),
    ensures
        begun.options() == tree.spec_options(),
        begun.safe_lsn() == tree.spec_safe_lsn(),
        lsn == txn.safe_lsn(),
{
}

/// A new tree has the given options, has counted nothing, and may drop nothing yet.
pub proof fn law_new_tree_has_counted_nothing(options: Options, tree: Tree)
    requires
        call_ensures(Tree::new, (options,), tree),
    ensures
        tree.spec_options() == options,
        tree.spec_safe_lsn() == 0,
        ({
            let none = TxnStats {
                read: 0,
                write: 0,
                read_bytes: 0,
                write_bytes: 0,
                split_page: 0,
                reconcile_page: 0,
                consolidate_page: 0,
            };
            tree.spec_stats() == (TreeStats { success: none, conflict: none })
        }),
{
}

/// A tree tells its options, its counts and its safe sequence number.
pub proof fn law_tree_tells_its_state(
    tree: &Tree,
    options: Options,
    stats: TreeStats,
    safe_lsn: u64,
)
    requires
        call_ensures(Tree::options, (tree,), options),
        call_ensures(Tree::stats, (tree,), stats),
        call_ensures(Tree::safe_lsn, (tree,), safe_lsn),
    ensures
        options == tree.spec_options(),
        stats == tree.spec_stats(),
        safe_lsn == tree.spec_safe_lsn(),
{
}

/// A request for a safe sequence number is met unless the number is there already; nothing
/// else of the tree changes.
pub proof fn law_safe_number_is_raised(tree: &mut Tree, lsn: u64)
    requires
        call_ensures(Tree::set_safe_lsn, (tree, lsn), ()),
    ensures
        final(tree).spec_safe_lsn() == if lsn > old(tree).spec_safe_lsn() {
            lsn
        } else {
            old(tree).spec_safe_lsn()
        },
        final(tree).spec_options() == old(tree).spec_options(),
        final(tree).spec_stats() == old(tree).spec_stats(),
{
}

/// A tree counts a report, and nothing else of it changes.
pub proof fn law_tree_counts_reports(tree: &mut Tree, note: &Note)
    requires
        call_ensures(Tree::record, (tree, note), ()),
    ensures
        final(tree).spec_stats() == old(tree).spec_stats().after(*note),
        final(tree).spec_options() == old(tree).spec_options(),
        final(tree).spec_safe_lsn() == old(tree).spec_safe_lsn(),
{
}

/// A page is to be split exactly if it is too large and stands alone, and to be consolidated
/// exactly if its chain is too long.
pub proof fn law_transactions_keep_pages_small(
    txn: &TreeTxn<'_>,
    page: &PageInfo,
    split: bool,
    consolidate: bool,
)
    requires
        call_ensures(TreeTxn::should_split_page, (txn, page), split),
        call_ensures(TreeTxn::should_consolidate_page, (txn, page), consolidate),
    ensures
        split <==> is_too_large(txn.options(), page.tier, page.size as int) && page.chain_next == 0,
        consolidate <==> is_too_long(txn.options(), page.tier, page.chain_len as int),
{
}

/// Byte strings are compared as words are, and copied byte by byte.
pub proof fn law_byte_strings_are_compared_as_words(
    a: &[u8],
    b: &[u8],
    less: bool,
    same: bool,
    copy: Vec<u8>,
)
    requires
        call_ensures(bytes_less, (a, b), less),
        call_ensures(bytes_same, (a, b), same),
        call_ensures(bytes_copy, (a,), copy),
    ensures
        less <==> is_below(a@, b@),
        same <==> a@ == b@,
        copy@ == a@,
{
    law_byte_strings_come_in_the_order_of_words(a@, b@);
}

/// Keys, values and references are what they were made of, and copies are the same.
pub proof fn law_parts_are_what_they_were_made_of(
    raw: Vec<u8>,
    lsn: u64,
    key: Key,
    id: u64,
    epoch: u64,
    index: Index,
    key_copy: Key,
    value: Value,
    value_copy: Value,
    key_len: usize,
    value_len: usize,
)
    requires
        call_ensures(Key::new, (raw, lsn), key),
        call_ensures(Index::new, (id, epoch), index),
        call_ensures(Key::copy, (&key,), key_copy),
        call_ensures(Value::copy, (&value,), value_copy),
        call_ensures(Key::len, (&key,), key_len),
        call_ensures(Value::len, (&value,), value_len),
    ensures
        key.raw@ == raw@,
        key.lsn == lsn,
        index == (Index { id, epoch }),
        key_copy.raw@ == raw@,
        key_copy.lsn == lsn,
        bytes_of(value_copy) == bytes_of(value),
        key_len == raw@.len(),
        value_len == match bytes_of(value) {
            Some(bytes) => bytes.len(),
            None => 0,
        },
{
}

/// The header of a page that stands alone, the header of a page in front of another, and the
/// description of a page that was built.
pub proof fn law_headers_describe_their_pages(
    base: PageHeader,
    epoch: u64,
    page: &PageInfo,
    addr: u64,
    chained: PageHeader,
    tier: PageTier,
    kind: PageKind,
    header: &PageHeader,
    size: usize,
    built: PageInfo,
    range: Range,
)
    requires
        call_ensures(PageHeader::base, (), base),
        call_ensures(PageHeader::chained, (epoch, page, addr), chained),
        call_ensures(PageInfo::built, (tier, kind, header, size), built),
        call_ensures(Range::root, (), range),
    ensures
        base == (PageHeader { epoch: 0, chain_len: 1, chain_next: 0 }),
        chained == (PageHeader {
            epoch,
            chain_len: one_more(page.chain_len) as u8,
            chain_next: addr,
        }),
        built == (PageInfo {
            tier,
            kind,
            epoch: header.epoch,
            chain_len: header.chain_len,
            chain_next: header.chain_next,
            size,
        }),
        range.start@.len() == 0,
        range.end is None,
{
}

/// A page is found well formed exactly if its contents are of the sort that its header
/// announces and stand in order; an event, if it brings no other page.
pub proof fn law_pages_are_examined(page: &Page, is_wf: bool, event: &Event, event_is_wf: bool)
    requires
        call_ensures(Page::is_wf, (page,), is_wf),
        call_ensures(Event::is_wf, (event,), event_is_wf),
    ensures
        is_wf <==> match page.items {
            Items::Values(v) => {
                &&& page.info.tier == PageTier::Leaf
                &&& page.info.kind == PageKind::Data
                &&& versions_stand_in_order(v@)
            },
            Items::Indexes(v) => {
                &&& page.info.tier == PageTier::Inner || page.info.kind == PageKind::Split
                &&& children_stand_in_order(v@)
            },
        },
        event_is_wf <==> match *event {
            Event::Page(brought) => brought.wf(),
            _ => true,
        },
{
    law_pages_hold_their_keys_in_order(*page);
}

/// What is found in a page for a key is what the newest version holds that is not too new, and
/// nothing where there is no such version.
pub proof fn law_newest_version_is_found(page: &Page, key: &Key, found: Option<Option<Vec<u8>>>)
    requires
        page.wf(),
        call_ensures(value_in_page, (page, key), found),
    ensures
        page.items is Indexes ==> found is None,
        page.items matches Items::Values(v) ==> {
            &&& found is None <==> !exists|i: int| #[trigger]
                can_be_seen(v@, key.raw@, key.lsn, i)
            &&& forall|i: int| #[trigger]
                is_newest_seen(v@, key.raw@, key.lsn, i) ==> found is Some && match found->0 {
                    Some(bytes) => bytes_of(v@[i].1) == Some(bytes@),
                    None => bytes_of(v@[i].1) is None,
                }
        },
{
    law_page_says_what_its_newest_version_holds(*page, key.raw@, key.lsn);
}

/// The child that is found in an inner page for a key is that of the last reference that is
/// not after the key, unless it is a placeholder.
pub proof fn law_child_is_found(page: &Page, raw: &[u8], found: Option<(Index, Range)>)
    requires
        page.wf(),
        call_ensures(child_in_page, (page, raw), found),
    ensures
        page.items is Values || page.info.kind is Split ==> found is None,
        page.items matches Items::Indexes(v) ==> (page.info.kind is Data ==> {
            &&& (v@.len() == 0 || is_below(raw@, v@[0].0@)) ==> found is None
            &&& forall|i: int|
                0 <= i < v@.len() && !is_below(raw@, #[trigger] v@[i].0@) && (i + 1 < v@.len()
                    ==> is_below(raw@, v@[i + 1].0@)) ==> if v@[i].1.id == 0 && v@[i].1.epoch
                    == 0 {
                    found is None
                } else {
                    found matches Some((index, range)) && {
                        &&& index == v@[i].1
                        &&& range.start@ == v@[i].0@
                        &&& match range.end {
                            Some(end) => i + 1 < v@.len() && end@ == v@[i + 1].0@,
                            None => i + 1 == v@.len(),
                        }
                    }
                }
        }),
{
    law_page_names_the_child(*page, raw@);
    match page.items {
        Items::Indexes(v) => {
            if v@.len() > 0 {
                law_byte_strings_come_in_the_order_of_words(raw@, v@[0].0@);
            }
            assert forall|i: int|
                0 <= i < v@.len() && !is_below(raw@, #[trigger] v@[i].0@) && (i + 1 < v@.len()
                    ==> is_below(raw@, v@[i + 1].0@)) && page.info.kind is Data implies if
            leads_nowhere(v@[i].1) {
                found is None
            } else {
                found matches Some((index, range)) && {
                    &&& index == v@[i].1
                    &&& range.start@ == v@[i].0@
                    &&& match range.end {
                        Some(end) => i + 1 < v@.len() && end@ == v@[i + 1].0@,
                        None => i + 1 == v@.len(),
                    }
                }
            } by {
                law_byte_strings_come_in_the_order_of_words(raw@, v@[i].0@);
                if i + 1 < v@.len() {
                    law_byte_strings_come_in_the_order_of_words(raw@, v@[i + 1].0@);
                }
            }
        },
        Items::Values(_) => {},
    }
}

/// Merging pages in order gives all that they hold, in order.
pub proof fn law_pages_are_merged<K: SortedPageKey, V>(
    pages: Vec<Vec<(K, V)>>,
    all: Vec<(K, V)>,
    newer: Vec<(K, V)>,
    older: Vec<(K, V)>,
    both: Vec<(K, V)>,
)
    requires
        call_ensures(merge_pages::<K, V>, (pages,), all),
        call_ensures(merge_pair::<K, V>, (newer, older), both),
    ensures
        all@.to_multiset() =~= contents(pages@),
        (forall|i: int| 0 <= i < pages@.len() ==> sorted(#[trigger] pages@[i]@)) ==> ordered(all@),
        both@.to_multiset() =~= newer@.to_multiset().add(older@.to_multiset()),
        sorted(newer@) && sorted(older@) ==> ordered(both@),
{
    law_merging_keeps_everything(pages@);
    lemma_merged_pair_contents(newer@, older@);
    if forall|i: int| 0 <= i < pages@.len() ==> sorted(#[trigger] pages@[i]@) {
        lemma_merged_onto_ordered(pages@, Seq::empty());
    }
    if sorted(newer@) && sorted(older@) {
        lemma_sorted_is_ordered(newer@);
        lemma_sorted_is_ordered(older@);
        lemma_merged_pair_ordered(newer@, older@);
    }
}

/// Exactly the versions are dropped that are useless.
pub proof fn law_old_versions_are_dropped(
    items: Vec<(Key, Value)>,
    safe_lsn: u64,
    kept: Vec<(Key, Value)>,
) -> (places: Seq<int>)
    requires
        ordered(items@),
        call_ensures(drop_old_versions, (items, safe_lsn), kept),
    ensures
        stand_at(kept@, items@, places),
        forall|i: int|
            0 <= i < items@.len() ==> (#[trigger] places.contains(i) <==> !is_useless(
                items@,
                safe_lsn,
                i,
            )),
{
    law_useless_versions_are_dropped(items@, safe_lsn)
}

/// Exactly the references are dropped that are placeholders or have been replaced.
pub proof fn law_placeholders_are_dropped(
    items: Vec<(Vec<u8>, Index)>,
    kept: Vec<(Vec<u8>, Index)>,
) -> (places: Seq<int>)
    requires
        ordered(items@),
        call_ensures(drop_dead_children, (items,), kept),
    ensures
        stand_at(kept@, items@, places),
        forall|i: int|
            0 <= i < items@.len() ==> (#[trigger] places.contains(i) <==> !leads_nowhere(
                items@[i].1,
            ) && !is_replaced(items@, i)),
{
    law_dead_children_are_dropped(items@)
}

/// Exactly the items are left out whose keys are at the limit or beyond it.
pub proof fn law_items_are_limited<K: SortedPageKey, V>(
    items: Vec<(K, V)>,
    limit: &Option<Vec<u8>>,
    kept: Vec<(K, V)>,
) -> (places: Seq<int>)
    requires
        call_ensures(limit_items::<K, V>, (items, limit), kept),
    ensures
        stand_at(kept@, items@, places),
        forall|i: int|
            0 <= i < items@.len() ==> (#[trigger] places.contains(i) <==> match *limit {
                Some(end) => is_below(items@[i].0.position().0, end@),
                None => true,
            }),
{
    let end = match *limit {
        Some(end) => Some(end@),
        None => None,
    };
    let places = law_limit_leaves_out_what_is_beyond(items@, end);
    assert forall|i: int| 0 <= i < items@.len() implies (#[trigger] places.contains(i)
        <==> match *limit {
        Some(end) => is_below(items@[i].0.position().0, end@),
        None => true,
    }) by {
        match *limit {
            Some(end) => {
                law_byte_strings_come_in_the_order_of_words(items@[i].0.position().0, end@);
            },
            None => {},
        }
    }
    places
}

/// The contents of several pages become those of one.
pub proof fn law_pages_turn_into_one(
    pages: Collected,
    limit: &Option<Vec<u8>>,
    safe_lsn: u64,
    items: Items,
)
    requires
        call_ensures(consolidate_items, (pages, limit, safe_lsn), items),
    ensures
        turn_into(
            pages,
            match *limit {
                Some(end) => Some(end@),
                None => None,
            },
            safe_lsn,
            items,
        ),
{
}

/// A page is divided in two parts at the first item that has the key of the one in the middle;
/// it is not divided exactly if that is the first item of all.
pub proof fn law_pages_are_divided(items: Items, parts: Option<(Vec<u8>, Items, Items)>)
    requires
        call_ensures(split_items, (items,), parts),
    ensures
        match parts {
            Some((key, left, right)) => {
                &&& joins(left, right, items)
                &&& is_first_of_the_middle(items, left.count() as int)
                &&& key@ == items.raw(left.count() as int)
            },
            None => has_one_key_up_to_the_middle(items),
        },
{
}

/// How operations start: an initialization, a search, a read and a write look up the address of
/// the root.
pub proof fn law_operations_start_at_the_root(
    raw: Vec<u8>,
    key: Key,
    value: Value,
    now: Duration,
    init: InitTurn,
    search: FindLeafTurn,
    read: GetTurn,
    write: WriteTurn,
)
    requires
        call_ensures(InitOp::start, (), init),
        call_ensures(FindLeafOp::start, (raw,), search),
        call_ensures(GetOp::start, (key, now), read),
        call_ensures(WriteOp::start, (key, value, now), write),
    ensures
        init.notes@.len() == 0,
        init.next == Next::<InitOp, Result<(), Error>>::Run(
            InitOp::Addr,
            Action::PageAddr(ROOT_ID),
        ),
        search.notes@.len() == 0,
        search.next matches Next::Run(op, action) && is_new_search(op, action, raw@),
        read.notes@.len() == 0,
        read.next matches Next::Run(op, action) && {
            &&& op.key == key
            &&& op.start_at == now
            &&& op.stage matches GetStage::Find(inner)
            &&& is_new_search(inner, action, key.raw@)
        },
        write.notes@.len() == 0,
        write.next matches Next::Run(op, action) && {
            &&& op.key == key
            &&& op.value == value
            &&& op.start_at == now
            &&& op.stage matches WriteStage::Find { search: inner, before }
            &&& before == now
            &&& is_new_search(inner, action, key.raw@)
        },
{
}

/// How the upkeep of a page starts: a split, a consolidation and a restructuring read the page.
pub proof fn law_upkeep_starts_with_the_page(
    txn: &TreeTxn<'_>,
    at: PageHandle,
    safe_lsn: u64,
    now: Duration,
    split: SplitTurn,
    consolidation: ConsolidateTurn,
    restructuring: RestructureTurn,
)
    requires
        at.addr != 0,
        call_ensures(SplitOp::start, (at, now), split),
        call_ensures(ConsolidateOp::start, (at, safe_lsn, now), consolidation),
        call_ensures(RestructureOp::start, (txn, at, now), restructuring),
    ensures
        split.notes@.len() == 0,
        split.next == if at.page.kind is Split || at.page.chain_next != 0 {
            Next::Done(Err(Error::InvalidArgument))
        } else if at.id == ROOT_ID && (at.page.epoch != 0 || at.page.chain_len != 1) {
            Next::<SplitOp, Result<(), Error>>::Halt(Halt::RootNotBase)
        } else {
            Next::Run(
                SplitOp { at, start_at: now, stage: SplitStage::Read },
                Action::ReadPage(at.addr, CacheOption::Default),
            )
        },
        consolidation.next matches Next::Run(op, action) && {
            &&& op.at == at
            &&& op.safe_lsn == safe_lsn
            &&& action == Action::ReadPage(at.addr, CacheOption::RefillColdWhenNotFull)
        },
        starts_to_consolidate(restructuring.next, at, txn.safe_lsn()),
{
}

/// How a reconciliation starts.
pub proof fn law_reconciliation_starts_with_the_page(
    view: PageView,
    parent: Option<PageHandle>,
    turn: ReconcileTurn,
)
    requires
        call_ensures(ReconcileOp::start, (view, parent), turn),
    ensures
        turn.next == if view.at.page.kind is Data {
            Next::<ReconcileOp, Result<(), Error>>::Done(Ok(()))
        } else if parent is Some && view.range is Some {
            Next::Run(
                ReconcileOp {
                    at: view.at,
                    parent: parent->0,
                    stage: ReconcileStage::Read { range: view.range->0 },
                },
                Action::ReadPage(view.at.addr, CacheOption::Default),
            )
        } else {
            Next::Done(Err(Error::InvalidArgument))
        },
{
    law_reconciliation_reads_the_split(view, parent, turn);
}

/// How operations go on after an event depends on the operation, on the event, on the time, and
/// on the options and the safe sequence number of the tree alone.
pub proof fn law_operations_go_by_their_transaction(
    txn: &TreeTxn<'_>,
    now: Duration,
    event: Event,
    write: WriteOp,
    write_turn: WriteTurn,
    read: GetOp,
    read_turn: GetTurn,
    search: FindLeafOp,
    search_turn: FindLeafTurn,
    reconcile: ReconcileOp,
    reconcile_turn: ReconcileTurn,
    iter: NextPageOp,
    iter_turn: NextPageTurn,
)
    requires
        call_ensures(WriteOp::step, (write, txn, now, event), write_turn),
        call_ensures(GetOp::step, (read, txn, now, event), read_turn),
        call_ensures(FindLeafOp::step, (search, txn, now, event), search_turn),
        call_ensures(ReconcileOp::step, (reconcile, txn, now, event), reconcile_turn),
        call_ensures(NextPageOp::step, (iter, txn, now, event), iter_turn),
    ensures
        write.steps_to(txn.options(), txn.safe_lsn(), now, event, write_turn),
        read.steps_to(txn.options(), txn.safe_lsn(), now, event, read_turn),
        search.steps_to(txn.options(), txn.safe_lsn(), now, event, search_turn),
        reconcile.steps_to(txn.options(), txn.safe_lsn(), now, event, reconcile_turn),
        iter.steps_to(txn.options(), txn.safe_lsn(), now, event, iter_turn),
{
}

/// How the upkeep of pages and an initialization go on after an event depends on the operation,
/// on the event, on the time, and on the options of the tree alone.
pub proof fn law_upkeep_goes_by_its_transaction(
    txn: &TreeTxn<'_>,
    now: Duration,
    event: Event,
    consolidate: ConsolidateOp,
    consolidate_turn: ConsolidateTurn,
    split: SplitOp,
    split_turn: SplitTurn,
    restructure: RestructureOp,
    restructure_turn: RestructureTurn,
    init: InitOp,
    init_turn: InitTurn,
)
    requires
        call_ensures(ConsolidateOp::step, (consolidate, txn, now, event), consolidate_turn),
        call_ensures(SplitOp::step, (split, now, event), split_turn),
        call_ensures(RestructureOp::step, (restructure, txn, now, event), restructure_turn),
        call_ensures(InitOp::step, (init, event), init_turn),
    ensures
        consolidate.steps_to(txn.options(), now, event, consolidate_turn),
        split.steps_to(now, event, split_turn),
        restructure.steps_to(txn.options(), now, event, restructure_turn),
        init.steps_to(event, init_turn),
{
}

/// A visit to a page of a chain says whether the page is left alone, is taken, or cannot be.
pub proof fn law_visits_take_pages(
    info: ConsolidationInfo,
    txn: &TreeTxn<'_>,
    addr: u64,
    page: Page,
    visit: Visit,
)
    requires
        call_ensures(ConsolidationInfo::visit, (info, txn, addr, page), visit),
    ensures
        is_left_alone(txn.options(), info, page.info) <==> visit is Stop,
        visit matches Visit::Stop(same) ==> same == info,
        visit matches Visit::Take(more) ==> {
            &&& more.page_addrs@ == info.page_addrs@.push(addr)
            &&& more.last_page == page.info
            &&& page.info.kind is Data ==> {
                &&& adds(info.pages, page.items, more.pages)
                &&& more.page_size == info.page_size + page.info.size
                &&& more.range_limit == info.range_limit
            }
            &&& page.info.kind is Split ==> {
                &&& more.pages == info.pages
                &&& more.page_size == info.page_size
                &&& info.range_limit is Some ==> more.range_limit == info.range_limit
                &&& info.range_limit is None ==> more.range_limit is Some && (
                more.range_limit->0)@ == page.items.raw(0)
            }
        },
        visit matches Visit::Halt(halt) ==> halt == if page.info.kind is Split {
            Halt::SplitDeltaMissing
        } else if (info.pages is Values) != (page.items is Values) {
            Halt::TierMismatch
        } else {
            Halt::Overflow
        },
{
}

/// A new iterator starts before all keys, and steps as iterators do.
pub proof fn law_new_iterators_start_at_the_front(
    options: ReadOptions,
    iter: TreeIter,
    turn: NextPageTurn,
)
    requires
        call_ensures(TreeIter::new, (options,), iter),
        call_ensures(TreeIter::next_page, (iter,), turn),
    ensures
        iter.options == options,
        turn.notes@.len() == 0,
        turn.next matches Next::Run(op, action) && {
            &&& op.iter.options == options
            &&& op.stage matches NextPageStage::Find { search, target }
            &&& target@.len() == 0
            &&& is_new_search(search, action, Seq::empty())
        },
{
    assert((iter.inner_next->0)@ =~= Seq::<u8>::empty());
}

/// Any iterator steps on as its children and the place where it goes on say.
pub proof fn law_iterators_step_as_they_stand(iter: TreeIter, turn: NextPageTurn)
    requires
        call_ensures(TreeIter::next_page, (iter,), turn),
    ensures
        iter.next_page_starts(turn),
{
}

/// An iterator over a leaf page is placed before the first item whose key is not before the
/// target.
pub proof fn law_page_iterators_seek(
    items: Vec<(Key, Value)>,
    max_lsn: u64,
    made: PageIter,
    iter: &mut PageIter,
    target: &[u8],
)
    requires
        call_ensures(PageIter::new, (items, max_lsn), made),
        call_ensures(PageIter::seek, (iter, target), ()),
    ensures
        made == (PageIter { items, next: 0, max_lsn }),
        final(iter).items == old(iter).items,
        final(iter).max_lsn == old(iter).max_lsn,
        is_place_of(old(iter).items@, target@, final(iter).next as int),
{
    law_seeking_passes_over_what_is_before(old(iter).items@, target@);
}

/// An iterator over a leaf page hands out the entries that are left, one after the other.
pub proof fn law_page_iterators_hand_out_entries(
    iter: &mut PageIter,
    entry: Option<(Vec<u8>, Vec<u8>)>,
)
    requires
        call_ensures(PageIter::next_entry, (iter,), entry),
    ensures
        match entry {
            Some((key, value)) => old(iter).entries() == seq![(key@, value@)]
                + final(iter).entries(),
            None => old(iter).entries().len() == 0 && final(iter).entries().len() == 0,
        },
        final(iter).items == old(iter).items,
        final(iter).max_lsn == old(iter).max_lsn,
{
    match entry {
        Some((key, value)) => {
            let before = old(iter).entries();
            assert(before =~= seq![before[0]] + before.drop_first());
        },
        None => {},
    }
}

/// An iterator over children is placed before the first one that does not begin before the
/// target, and hands out the children one after the other.
pub proof fn law_child_iterators_hand_out_children(
    iter: &mut InnerPageIter,
    target: &[u8],
    found: bool,
    other: &mut InnerPageIter,
    child: Option<(Vec<u8>, Index)>,
)
    requires
        call_ensures(InnerPageIter::seek, (iter, target), found),
        call_ensures(InnerPageIter::next, (other,), child),
    ensures
        final(iter).items == old(iter).items,
        is_place_of(old(iter).items@, target@, final(iter).next as int),
        ({
            let place = final(iter).next as int;
            found <==> place < old(iter).items@.len() && old(iter).items@[place].0@ == target@
        }),
        final(other).items == old(other).items,
        match child {
            Some((start, index)) => {
                &&& old(other).next < old(other).items@.len()
                &&& start@ == old(other).items@[old(other).next as int].0@
                &&& index == old(other).items@[old(other).next as int].1
                &&& final(other).next == old(other).next + 1
            },
            None => {
                &&& old(other).next >= old(other).items@.len()
                &&& final(other).next == old(other).next
            },
        },
{
    law_seeking_passes_over_what_is_before(old(iter).items@, target@);
}

/// A context records a report.
pub proof fn law_contexts_record_reports(ctx: &mut PerfCtx, note: &Note, room: bool)
    requires
        call_ensures(PerfCtx::record, (ctx, note), ()),
        call_ensures(PerfCtx::can_record, (old(ctx), note), room),
    ensures
        old(ctx).records(*note, *final(ctx)),
        room == old(ctx).has_room(*note),
{
}

/// The turns that operations take.
pub proof fn law_turns_are_what_they_were_made_of(
    op: InitOp,
    action: Action,
    asks: InitTurn,
    result: Result<(), Error>,
    ends: InitTurn,
    note: Note,
    reports: InitTurn,
    halt: Halt,
    halts: InitTurn,
)
    requires
        call_ensures(Turn::<InitOp, Result<(), Error>>::ask, (op, action), asks),
        call_ensures(Turn::<InitOp, Result<(), Error>>::end, (result,), ends),
        call_ensures(Turn::<InitOp, Result<(), Error>>::report, (ends, note), reports),
        call_ensures(Turn::<InitOp, Result<(), Error>>::halt, (halt,), halts),
    ensures
        asks.notes@.len() == 0,
        asks.next == Next::<InitOp, Result<(), Error>>::Run(op, action),
        ends.notes@.len() == 0,
        ends.next == Next::<InitOp, Result<(), Error>>::Done(result),
        reports.notes@ == seq![note],
        reports.next == ends.next,
        halts.notes@.len() == 0,
        halts.next == Next::<InitOp, Result<(), Error>>::Halt(halt),
{
}

/// What is collected of pages at first is nothing, and then what they hold.
pub proof fn law_pages_are_collected(
    tier: PageTier,
    new: Collected,
    before: Collected,
    items: Items,
    after: Result<Collected, Collected>,
    page: PageInfo,
    info: ConsolidationInfo,
)
    requires
        call_ensures(Collected::new, (tier,), new),
        call_ensures(Collected::add_page, (before, items), after),
        call_ensures(ConsolidationInfo::new, (page,), info),
    ensures
        is_nothing(new, tier),
        match after {
            Ok(more) => adds(before, items, more),
            Err(same) => same == before && (before is Values) != (items is Values),
        },
        is_nothing(info.pages, page.tier),
        info.page_size == 0,
        info.last_page == page,
        info.page_addrs@.len() == 0,
        info.range_limit is None,
{
}

/// Nothing has been collected from pages of this tier.
pub open spec fn is_nothing(pages: Collected, tier: PageTier) -> bool {
    match (tier, pages) {
        (PageTier::Leaf, Collected::Values(v)) => v@.len() == 0,
        (PageTier::Inner, Collected::Indexes(v)) => v@.len() == 0,
        _ => false,
    }
}

/// An iterator gathers pages, and merges what it has gathered.
pub proof fn law_pages_are_gathered(
    tier: PageTier,
    new: Gather,
    before: Gather,
    page: Page,
    after: Result<Gather, Halt>,
    versions: Option<Vec<(Key, Value)>>,
    children: Option<Vec<(Vec<u8>, Index)>>,
)
    requires
        call_ensures(Gather::new, (tier,), new),
        call_ensures(Gather::visit, (before, page), after),
        call_ensures(Gather::into_leaf_items, (before,), versions),
        call_ensures(Gather::into_children, (before,), children),
    ensures
        is_nothing(new.pages, tier),
        new.range_limit is None,
        match after {
            Ok(more) => can_be_gathered(before, page) && gathers(before, page, more),
            Err(halt) => !can_be_gathered(before, page) && halt == if page.info.kind is Data {
                Halt::TierMismatch
            } else {
                Halt::SplitDeltaMissing
            },
        },
        versions is Some <==> before.pages is Values,
        versions matches Some(items) ==> are_versions(before, items@),
        children is Some <==> before.pages is Indexes,
        children matches Some(items) ==> are_children(before, items@),
{
}

/// A page announces a split with its first reference.
pub proof fn law_splits_are_announced(
    page: &Page,
    announces: bool,
    announcement: (Vec<u8>, Index),
)
    requires
        call_ensures(is_split_delta, (page,), announces),
        call_ensures(split_delta_from_page, (page,), announcement),
    ensures
        announces <==> page.items is Indexes && page.items.count() > 0,
        announces ==> {
            &&& announcement.0@ == page.items->Indexes_0@[0].0@
            &&& announcement.1 == page.items->Indexes_0@[0].1
        },
{
}

/// The rank of a position among items in order is where it stands, or else the number of items
/// that stand before it.
pub proof fn law_positions_are_ranked(
    items: &Vec<(Key, Value)>,
    raw: &[u8],
    lsn: u64,
    place: Result<usize, usize>,
)
    requires
        sorted(items@),
        call_ensures(rank::<Key, Value>, (items, raw, lsn), place),
    ensures
        ({
            let n = match place {
                Ok(i) => i,
                Err(i) => i,
            };
            &&& n <= items@.len()
            &&& forall|j: int|
                0 <= j < items@.len() ==> (j < n <==> is_below(
                    (#[trigger] items@[j]).0.raw@,
                    raw@,
                ) || (items@[j].0.raw@ == raw@ && items@[j].0.lsn > lsn))
            &&& place is Ok <==> n < items@.len() && items@[n as int].0.raw@ == raw@
                && items@[n as int].0.lsn == lsn
        }),
{
    assert forall|j: int| 0 <= j < items@.len() implies position_lt(
        (#[trigger] items@[j]).0.position(),
        (raw@, lsn),
    ) == (is_below(items@[j].0.raw@, raw@) || (items@[j].0.raw@ == raw@ && items@[j].0.lsn
        > lsn)) by {
        law_newer_versions_come_first(items@[j].0.position(), (raw@, lsn));
    }
}

/// The timings of whole operations, of searches and of building a page are set; nothing else of
/// the context changes.
pub proof fn law_last_timings_are_set(
    total: &mut PerfCtx,
    leaf: &mut PerfCtx,
    found: &mut PerfCtx,
    build: &mut PerfCtx,
    value: Duration,
)
    requires
        call_ensures(PerfCtx::set_total, (total, value), ()),
        call_ensures(PerfCtx::set_find_leaf, (leaf, value), ()),
        call_ensures(PerfCtx::set_find_value, (found, value), ()),
        call_ensures(PerfCtx::set_write_build_page, (build, value), ()),
    ensures
        *final(total) == (PerfCtx { total: value, ..*old(total) }),
        *final(leaf) == (PerfCtx { find_leaf: value, ..*old(leaf) }),
        *final(found) == (PerfCtx { find_value: value, ..*old(found) }),
        *final(build) == (PerfCtx { write_build_page: value, ..*old(build) }),
{
}

/// The duration is the sum of the others, or the greatest duration where the sum is beyond it.
pub open spec fn adds_up(before: Duration, value: Duration, after: Duration) -> bool {
    let longest = 0xffff_ffff_ffff_ffffint * 1_000_000_000int + 999_999_999int;
    let sum = duration_nanos(before) as int + duration_nanos(value) as int;
    duration_nanos(after) as int == if sum > longest {
        longest
    } else {
        sum
    }
}

/// The other timings add up; nothing else of the context changes.
pub proof fn law_other_timings_add_up(
    consolidate: &mut PerfCtx,
    collect: &mut PerfCtx,
    page: &mut PerfCtx,
    info: &mut PerfCtx,
    replace: &mut PerfCtx,
    split: &mut PerfCtx,
    value: Duration,
)
    requires
        call_ensures(PerfCtx::add_consolidate_page, (consolidate, value), ()),
        call_ensures(PerfCtx::add_collect_info, (collect, value), ()),
        call_ensures(PerfCtx::add_get_page, (page, value), ()),
        call_ensures(PerfCtx::add_get_page_info, (info, value), ()),
        call_ensures(PerfCtx::add_replace_page, (replace, value), ()),
        call_ensures(PerfCtx::add_split_page, (split, value), ()),
    ensures
        ({
            let after = final(consolidate).consolidate_page;
            &&& adds_up(old(consolidate).consolidate_page, value, after)
            &&& *final(consolidate) == (PerfCtx { consolidate_page: after, ..*old(consolidate) })
        }),
        ({
            let after = final(collect).collect_info;
            &&& adds_up(old(collect).collect_info, value, after)
            &&& *final(collect) == (PerfCtx { collect_info: after, ..*old(collect) })
        }),
        ({
            let after = final(page).get_page;
            &&& adds_up(old(page).get_page, value, after)
            &&& *final(page) == (PerfCtx { get_page: after, ..*old(page) })
        }),
        ({
            let after = final(info).get_page_info;
            &&& adds_up(old(info).get_page_info, value, after)
            &&& *final(info) == (PerfCtx { get_page_info: after, ..*old(info) })
        }),
        ({
            let after = final(replace).replace_page;
            &&& adds_up(old(replace).replace_page, value, after)
            &&& *final(replace) == (PerfCtx { replace_page: after, ..*old(replace) })
        }),
        ({
            let after = final(split).split_page;
            &&& adds_up(old(split).split_page, value, after)
            &&& *final(split) == (PerfCtx { split_page: after, ..*old(split) })
        }),
{
}

/// The counts of a context go on by one, and its sizes by what is added; nothing else of the
/// context changes.
pub proof fn law_context_counts_go_on(
    miss: &mut PerfCtx,
    hit: &mut PerfCtx,
    info: &mut PerfCtx,
    sizes: &mut PerfCtx,
    lengths: &mut PerfCtx,
    n: usize,
)
    requires
        call_ensures(PerfCtx::inc_get_page_from_cache_miss_count, (miss,), ()),
        call_ensures(PerfCtx::inc_get_page_from_cache_count, (hit,), ()),
        call_ensures(PerfCtx::inc_get_page_info_count, (info,), ()),
        call_ensures(PerfCtx::add_consolidate_page_size, (sizes, n), ()),
        call_ensures(PerfCtx::add_consolidate_length, (lengths, n), ()),
    ensures
        *final(miss) == (PerfCtx {
            get_page_from_cache_miss_count: (old(miss).get_page_from_cache_miss_count + 1) as u64,
            ..*old(miss)
        }),
        *final(hit) == (PerfCtx {
            get_page_from_cache_count: (old(hit).get_page_from_cache_count + 1) as u64,
            ..*old(hit)
        }),
        *final(info) == (PerfCtx {
            get_page_info_count: (old(info).get_page_info_count + 1) as u64,
            ..*old(info)
        }),
        *final(sizes) == (PerfCtx {
            consolidate_page_size: (old(sizes).consolidate_page_size + n) as usize,
            ..*old(sizes)
        }),
        *final(lengths) == (PerfCtx {
            consolidate_length: (old(lengths).consolidate_length + n) as usize,
            ..*old(lengths)
        }),
{
}

/// A context that was reset holds zeros only, and so does a new one.
pub proof fn law_contexts_are_reset(
    one: &mut PerfCtx,
    other: &mut PerfCtx,
    new: PerfCtx,
)
    requires
        call_ensures(PerfCtx::reset, (one,), ()),
        call_ensures(reset_perf_ctx, (other,), ()),
        call_ensures(PerfCtx::default, (), new),
    ensures
        holds_zeros(*final(one)),
        holds_zeros(*final(other)),
        holds_zeros(new),
{
    assert forall|t: Timing| #[trigger] time_of(*final(one), t) == 0 by {
        law_empty_context_holds_zeros(*final(one), t);
    }
    assert forall|t: Timing| #[trigger] time_of(*final(other), t) == 0 by {
        law_empty_context_holds_zeros(*final(other), t);
    }
    assert forall|t: Timing| #[trigger] time_of(new, t) == 0 by {
        law_empty_context_holds_zeros(new, t);
    }
}

/// All that the context holds is zero.
pub open spec fn holds_zeros(ctx: PerfCtx) -> bool {
    &&& forall|timing: Timing| #[trigger] time_of(ctx, timing) == 0
    &&& duration_nanos(ctx.get_page_info) == 0
    &&& duration_nanos(ctx.get_page) == 0
    &&& ctx.get_page_from_cache_count == 0
    &&& ctx.get_page_from_cache_miss_count == 0
    &&& ctx.get_page_info_count == 0
    &&& ctx.consolidate_page_size == 0
    &&& ctx.consolidate_length == 0
}

/// A function that is run on the context gets the context as it is, and leaves it as it will
/// be.
pub proof fn law_functions_run_on_the_context<F, R>(ctx: &mut PerfCtx, f: F, result: R) where
    F: FnOnce(&mut PerfCtx) -> R,

    requires
        call_ensures(with::<F, R>, (ctx, f), result),
    ensures
        exists|c: &mut PerfCtx|
            *c == *old(ctx) && *final(c) == *final(ctx) && #[trigger] call_ensures(
                f,
                (c,),
                result,
            ),
{
}

} // verus!
