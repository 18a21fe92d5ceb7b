use photondb::consolidate::ConsolidateOp;
use photondb::get::GetOp;
use photondb::init::InitOp;
use photondb::iter::{NextPageOp, TreeIter};
use photondb::note::{Counter, Note};
use photondb::page::{
    Index, Items, Key, Page, PageHandle, PageHeader, PageInfo, PageKind, PageTier, PageView, Range,
    Value, ROOT_ID,
};
use photondb::reconcile::ReconcileOp;
use photondb::restructure::RestructureOp;
use photondb::search::FindLeafOp;
use photondb::split::SplitOp;
use photondb::tree::{Options, ReadOptions, Tree};
use photondb::turn::{Action, CacheOption, Error, Event, Halt, Next, Turn};
use photondb::write::WriteOp;
use std::time::Duration;

const NOW: Duration = Duration::ZERO;

fn tree() -> Tree {
    Tree::new(Options { page_size: 100, page_chain_length: 4 })
}

fn info(tier: PageTier, kind: PageKind, epoch: u64, chain_len: u8, chain_next: u64, size: usize) -> PageInfo {
    PageInfo { tier, kind, epoch, chain_len, chain_next, size }
}

fn leaf_info(epoch: u64) -> PageInfo {
    info(PageTier::Leaf, PageKind::Data, epoch, 1, 0, 10)
}

fn values(keys: &[&[u8]]) -> Items {
    Items::Values(keys.iter().map(|k| (Key::new(k.to_vec(), 1), Value::Put(k.to_vec()))).collect())
}

fn indexes(entries: &[(&[u8], u64, u64)]) -> Items {
    Items::Indexes(entries.iter().map(|(k, id, epoch)| (k.to_vec(), Index::new(*id, *epoch))).collect())
}

fn leaf_page(keys: &[&[u8]]) -> Page {
    Page { info: leaf_info(0), items: values(keys) }
}

fn inner_page(entries: &[(&[u8], u64, u64)], chain_next: u64) -> Page {
    Page {
        info: info(PageTier::Inner, PageKind::Data, 0, 1, chain_next, 10),
        items: indexes(entries),
    }
}

fn split_page(epoch: u64, entries: &[(&[u8], u64, u64)]) -> Page {
    Page {
        info: info(PageTier::Leaf, PageKind::Split, epoch, 2, 9, 10),
        items: indexes(entries),
    }
}

fn run<M, R>(turn: Turn<M, R>) -> (M, Action) {
    match turn.next {
        Next::Run(op, action) => (op, action),
        Next::Done(_) => panic!("the operation has ended"),
        Next::Halt(halt) => panic!("{:?}", halt),
    }
}

fn done<M, R>(turn: Turn<M, R>) -> R {
    match turn.next {
        Next::Run(_, action) => panic!("{:?}", action),
        Next::Done(result) => result,
        Next::Halt(halt) => panic!("{:?}", halt),
    }
}

fn halted<M, R>(turn: Turn<M, R>) -> Halt {
    match turn.next {
        Next::Run(_, action) => panic!("{:?}", action),
        Next::Done(_) => panic!("the operation has ended"),
        Next::Halt(halt) => halt,
    }
}

fn is_conflict(note: &Note, counter: Counter) -> bool {
    matches!(note, Note::Conflict(c) if *c == counter)
}

fn is_success(note: &Note, counter: Counter) -> bool {
    matches!(note, Note::Success(c) if *c == counter)
}

#[test]
fn init_leaves_a_tree_alone_that_has_a_root() {
    let (op, action) = run(InitOp::start());
    assert!(matches!(action, Action::PageAddr(ROOT_ID)));
    assert_eq!(done(op.step(Event::Addr(7))), Ok(()));
}

#[test]
fn init_reports_failures_and_foreign_roots() {
    let (op, _) = run(InitOp::start());
    let (op, action) = run(op.step(Event::Addr(0)));
    assert!(matches!(action, Action::Begin));
    let (op, _) = run(op.step(Event::Begun));
    assert_eq!(done(op.step(Event::Failed(Error::Storage(3)))), Err(Error::Storage(3)));
    let (op, action) = run(InitOp::Build.step(Event::Built { addr: 4, size: 0 }));
    assert!(matches!(action, Action::InsertPage(4)));
    assert_eq!(halted(op.step(Event::Inserted(ROOT_ID + 1))), Halt::RootIdMismatch);
    assert_eq!(halted(InitOp::Addr.step(Event::Begun)), Halt::UnexpectedEvent);
}

#[test]
fn a_search_narrows_the_range_on_its_way_down() {
    let tree = tree();
    let txn = tree.begin();
    let (op, _) = run(FindLeafOp::start(b"m".to_vec()));
    let (op, action) = run(op.step(&txn, NOW, Event::Addr(5)));
    assert!(matches!(action, Action::ReadPageInfo(5)));
    let root = inner_page(&[(b"", 2, 0), (b"k", 3, 4), (b"t", 4, 0)], 0);
    let (op, action) = run(op.step(&txn, NOW, Event::Info(root.info)));
    assert!(matches!(action, Action::ReadPage(5, CacheOption::Default)));
    let (op, action) = run(op.step(&txn, NOW, Event::Page(root)));
    assert!(matches!(action, Action::PageAddr(3)));
    let (op, _) = run(op.step(&txn, NOW, Event::Addr(6)));
    let turn = op.step(&txn, NOW, Event::Info(leaf_info(4)));
    assert_eq!(turn.notes.len(), 1);
    assert!(is_success(&turn.notes[0], Counter::Read));
    let (view, parent) = done(turn).expect("the leaf page was found");
    assert_eq!(view.at.id, 3);
    assert_eq!(view.at.addr, 6);
    let range = view.range.expect("a search gives a range");
    assert_eq!(range.start, b"k".to_vec());
    assert_eq!(range.end, Some(b"t".to_vec()));
    let parent = parent.expect("the root is the parent");
    assert_eq!(parent.at.id, ROOT_ID);
    let range = parent.range.expect("a search gives a range");
    assert_eq!(range.start, Vec::<u8>::new());
    assert_eq!(range.end, None);
}

#[test]
fn a_search_takes_the_end_of_the_parent_where_a_child_has_none() {
    let tree = tree();
    let txn = tree.begin();
    let (op, _) = run(FindLeafOp::start(b"m".to_vec()));
    let (op, _) = run(op.step(&txn, NOW, Event::Addr(5)));
    let root = inner_page(&[(b"", 2, 0), (b"t", 4, 0)], 0);
    let (op, _) = run(op.step(&txn, NOW, Event::Info(root.info)));
    let (op, _) = run(op.step(&txn, NOW, Event::Page(root)));
    let (op, _) = run(op.step(&txn, NOW, Event::Addr(6)));
    let inner = inner_page(&[(b"", 7, 0), (b"c", 8, 0)], 0);
    let (op, _) = run(op.step(&txn, NOW, Event::Info(inner.info)));
    let (op, action) = run(op.step(&txn, NOW, Event::Page(inner)));
    assert!(matches!(action, Action::PageAddr(8)));
    let (op, _) = run(op.step(&txn, NOW, Event::Addr(9)));
    let (view, _) = done(op.step(&txn, NOW, Event::Info(leaf_info(0)))).expect("a leaf page");
    let range = view.range.expect("a search gives a range");
    assert_eq!(range.start, b"c".to_vec());
    assert_eq!(range.end, Some(b"t".to_vec()));
}

#[test]
fn a_search_passes_over_placeholders_and_newer_pages_without_the_key() {
    let tree = tree();
    let txn = tree.begin();
    let (op, _) = run(FindLeafOp::start(b"m".to_vec()));
    let (op, _) = run(op.step(&txn, NOW, Event::Addr(5)));
    let delta = inner_page(&[(b"a", 2, 1), (b"c", 6, 0), (b"e", 0, 0)], 4);
    let (op, _) = run(op.step(&txn, NOW, Event::Info(delta.info)));
    let (op, action) = run(op.step(&txn, NOW, Event::Page(delta)));
    assert!(matches!(action, Action::ReadPage(4, CacheOption::Default)));
    let base = inner_page(&[(b"n", 9, 0)], 0);
    assert_eq!(halted(op.step(&txn, NOW, Event::Page(base))), Halt::ChildMissing);
}

#[test]
fn a_search_begins_again_after_a_conflict_and_ends_on_a_failure() {
    let tree = tree();
    let txn = tree.begin();
    let (op, _) = run(FindLeafOp::start(b"m".to_vec()));
    let (op, _) = run(op.step(&txn, NOW, Event::Addr(5)));
    let turn = op.step(&txn, NOW, Event::Failed(Error::Again));
    assert_eq!(turn.notes.len(), 1);
    assert!(is_conflict(&turn.notes[0], Counter::Read));
    let (op, action) = run(turn);
    assert!(matches!(action, Action::PageAddr(ROOT_ID)));
    let (op, _) = run(op.step(&txn, NOW, Event::Addr(5)));
    let result = done(op.step(&txn, NOW, Event::Failed(Error::Storage(8))));
    assert!(matches!(result, Err(Error::Storage(8))));
    let (op, _) = run(FindLeafOp::start(b"m".to_vec()));
    assert_eq!(halted(op.step(&txn, NOW, Event::Committed)), Halt::UnexpectedEvent);
}

#[test]
fn a_search_tells_the_parent_of_a_split_and_begins_again() {
    let tree = tree();
    let txn = tree.begin();
    let (op, _) = run(FindLeafOp::start(b"m".to_vec()));
    let (op, _) = run(op.step(&txn, NOW, Event::Addr(5)));
    let root = inner_page(&[(b"", 2, 3), (b"t", 4, 0)], 0);
    let (op, _) = run(op.step(&txn, NOW, Event::Info(root.info)));
    let (op, _) = run(op.step(&txn, NOW, Event::Page(root)));
    let (op, _) = run(op.step(&txn, NOW, Event::Addr(6)));
    let split = split_page(4, &[(b"k", 7, 0)]);
    let (op, action) = run(op.step(&txn, NOW, Event::Info(split.info)));
    assert!(matches!(action, Action::ReadPage(6, CacheOption::Default)));
    let (op, action) = run(op.step(&txn, NOW, Event::Page(split)));
    assert!(matches!(action, Action::Begin));
    let (op, action) = run(op.step(&txn, NOW, Event::Begun));
    match action {
        Action::BuildPage(draft) => {
            assert_eq!(draft.tier, PageTier::Inner);
            assert_eq!(draft.kind, PageKind::Data);
            match draft.items {
                Items::Indexes(items) => assert_eq!(
                    items,
                    vec![
                        (b"".to_vec(), Index::new(2, 4)),
                        (b"k".to_vec(), Index::new(7, 0)),
                        (b"t".to_vec(), Index::new(0, 0)),
                    ]
                ),
                Items::Values(_) => panic!("an inner page refers to children"),
            }
        }
        other => panic!("{:?}", other),
    }
    let (op, action) = run(op.step(&txn, NOW, Event::Built { addr: 20, size: 3 }));
    match action {
        Action::UpdatePage { id, old_addr, new_addr, header } => {
            assert_eq!((id, old_addr, new_addr), (ROOT_ID, 5, 20));
            assert_eq!(header, PageHeader { epoch: 0, chain_len: 2, chain_next: 5 });
        }
        other => panic!("{:?}", other),
    }
    let turn = op.step(&txn, NOW, Event::Updated);
    assert_eq!(turn.notes.len(), 2);
    assert!(is_success(&turn.notes[0], Counter::ReconcilePage));
    assert!(is_conflict(&turn.notes[1], Counter::Read));
    let (_, action) = run(turn);
    assert!(matches!(action, Action::PageAddr(ROOT_ID)));
}

fn split_view(end: Option<Vec<u8>>) -> PageView {
    PageView {
        at: PageHandle { id: 2, addr: 6, page: info(PageTier::Leaf, PageKind::Split, 1, 2, 9, 1) },
        range: Some(Range { start: b"a".to_vec(), end }),
    }
}

fn parent_at() -> PageHandle {
    PageHandle { id: 1, addr: 5, page: info(PageTier::Inner, PageKind::Data, 0, 1, 0, 1) }
}

#[test]
fn a_reconciliation_has_nothing_to_do_for_data_pages() {
    let view = PageView { at: PageHandle { id: 2, addr: 6, page: leaf_info(1) }, range: None };
    let turn = ReconcileOp::start(view, None);
    assert_eq!(turn.notes.len(), 1);
    assert!(is_success(&turn.notes[0], Counter::ReconcilePage));
    assert_eq!(done(turn), Ok(()));
}

#[test]
fn a_reconciliation_needs_a_parent_and_a_range() {
    let turn = ReconcileOp::start(split_view(None), None);
    assert_eq!(turn.notes.len(), 0);
    assert_eq!(done(turn), Err(Error::InvalidArgument));
    let view = PageView { range: None, ..split_view(None) };
    assert_eq!(done(ReconcileOp::start(view, Some(parent_at()))), Err(Error::InvalidArgument));
}

#[test]
fn a_reconciliation_refuses_a_split_that_makes_no_sense() {
    let tree = tree();
    let txn = tree.begin();
    let (op, _) = run(ReconcileOp::start(split_view(Some(b"m".to_vec())), Some(parent_at())));
    let turn = op.step(&txn, NOW, Event::Page(split_page(1, &[])));
    assert_eq!(halted(turn), Halt::SplitDeltaMissing);
    let (op, _) = run(ReconcileOp::start(split_view(Some(b"m".to_vec())), Some(parent_at())));
    let turn = op.step(&txn, NOW, Event::Page(split_page(1, &[(b"m", 7, 0)])));
    assert_eq!(halted(turn), Halt::SplitKeyOutOfRange);
}

#[test]
fn a_reconciliation_counts_conflicts_but_no_failures() {
    let tree = tree();
    let txn = tree.begin();
    let (op, _) = run(ReconcileOp::start(split_view(None), Some(parent_at())));
    let (op, _) = run(op.step(&txn, NOW, Event::Page(split_page(1, &[(b"k", 7, 0)]))));
    let (op, action) = run(op.step(&txn, NOW, Event::Begun));
    match action {
        Action::BuildPage(draft) => match draft.items {
            Items::Indexes(items) => assert_eq!(
                items,
                vec![(b"a".to_vec(), Index::new(2, 1)), (b"k".to_vec(), Index::new(7, 0))]
            ),
            Items::Values(_) => panic!("an inner page refers to children"),
        },
        other => panic!("{:?}", other),
    }
    let (op, _) = run(op.step(&txn, NOW, Event::Built { addr: 20, size: 3 }));
    let turn = op.step(&txn, NOW, Event::UpdateLost);
    assert_eq!(turn.notes.len(), 1);
    assert!(is_conflict(&turn.notes[0], Counter::ReconcilePage));
    assert_eq!(done(turn), Err(Error::Again));
    let (op, _) = run(ReconcileOp::start(split_view(None), Some(parent_at())));
    let turn = op.step(&txn, NOW, Event::Failed(Error::Storage(1)));
    assert_eq!(turn.notes.len(), 0);
    assert_eq!(done(turn), Err(Error::Storage(1)));
}

#[test]
fn a_split_needs_a_base_data_page() {
    let chained = PageHandle { id: 2, addr: 6, page: info(PageTier::Leaf, PageKind::Data, 0, 2, 3, 1) };
    assert_eq!(done(SplitOp::start(chained, NOW)), Err(Error::InvalidArgument));
    let announced = PageHandle { id: 2, addr: 6, page: info(PageTier::Leaf, PageKind::Split, 0, 1, 0, 1) };
    assert_eq!(done(SplitOp::start(announced, NOW)), Err(Error::InvalidArgument));
    let root = PageHandle { id: ROOT_ID, addr: 6, page: leaf_info(1) };
    assert_eq!(halted(SplitOp::start(root, NOW)), Halt::RootNotBase);
}

#[test]
fn a_split_gives_the_right_half_to_a_new_page() {
    let at = PageHandle { id: 2, addr: 6, page: leaf_info(3) };
    let (op, action) = run(SplitOp::start(at, NOW));
    assert!(matches!(action, Action::ReadPage(6, CacheOption::Default)));
    let (op, _) = run(op.step(NOW, Event::Page(leaf_page(&[b"a", b"b", b"c", b"d", b"e"]))));
    let (op, action) = run(op.step(NOW, Event::Begun));
    match action {
        Action::BuildPage(draft) => match draft.items {
            Items::Values(items) => {
                let keys: Vec<Vec<u8>> = items.into_iter().map(|(k, _)| k.raw).collect();
                assert_eq!(keys, vec![b"c".to_vec(), b"d".to_vec(), b"e".to_vec()]);
            }
            Items::Indexes(_) => panic!("a leaf page holds values"),
        },
        other => panic!("{:?}", other),
    }
    let (op, action) = run(op.step(NOW, Event::Built { addr: 21, size: 9 }));
    assert!(matches!(action, Action::InsertPage(21)));
    let (op, action) = run(op.step(NOW, Event::Inserted(8)));
    match action {
        Action::BuildPage(draft) => {
            assert_eq!(draft.tier, PageTier::Leaf);
            assert_eq!(draft.kind, PageKind::Split);
            match draft.items {
                Items::Indexes(items) => {
                    assert_eq!(items, vec![(b"c".to_vec(), Index::new(8, 0))])
                }
                Items::Values(_) => panic!("the announcement refers to the new page"),
            }
        }
        other => panic!("{:?}", other),
    }
    let (op, action) = run(op.step(NOW, Event::Built { addr: 22, size: 9 }));
    match action {
        Action::UpdatePage { id, old_addr, new_addr, header } => {
            assert_eq!((id, old_addr, new_addr), (2, 6, 22));
            assert_eq!(header, PageHeader { epoch: 4, chain_len: 2, chain_next: 6 });
        }
        other => panic!("{:?}", other),
    }
    let turn = op.step(NOW, Event::UpdateMoved(30));
    assert!(is_conflict(&turn.notes[0], Counter::SplitPage));
    assert_eq!(done(turn), Err(Error::Again));
}

#[test]
fn a_page_with_one_key_does_not_split() {
    let at = PageHandle { id: 2, addr: 6, page: leaf_info(3) };
    let (op, _) = run(SplitOp::start(at, NOW));
    let items = Items::Values(vec![
        (Key::new(b"a".to_vec(), 3), Value::Delete),
        (Key::new(b"a".to_vec(), 2), Value::Delete),
        (Key::new(b"a".to_vec(), 1), Value::Delete),
    ]);
    let turn = op.step(NOW, Event::Page(Page { info: leaf_info(3), items }));
    assert_eq!(turn.notes.len(), 0);
    assert_eq!(done(turn), Ok(()));
}

#[test]
fn an_epoch_does_not_wrap() {
    let at = PageHandle { id: 2, addr: 6, page: leaf_info(u64::MAX) };
    let (op, _) = run(SplitOp::start(at, NOW));
    let (op, _) = run(op.step(NOW, Event::Page(leaf_page(&[b"a", b"b"]))));
    let (op, _) = run(op.step(NOW, Event::Begun));
    let (op, _) = run(op.step(NOW, Event::Built { addr: 21, size: 9 }));
    let (op, _) = run(op.step(NOW, Event::Inserted(8)));
    assert_eq!(halted(op.step(NOW, Event::Built { addr: 22, size: 9 })), Halt::Overflow);
}

#[test]
fn a_split_of_the_root_puts_a_new_root_above_both_halves() {
    let at = PageHandle { id: ROOT_ID, addr: 6, page: leaf_info(0) };
    let (op, _) = run(SplitOp::start(at, NOW));
    let (op, _) = run(op.step(NOW, Event::Page(leaf_page(&[b"a", b"b", b"c"]))));
    let (op, _) = run(op.step(NOW, Event::Begun));
    let (op, _) = run(op.step(NOW, Event::Built { addr: 20, size: 9 }));
    let (op, _) = run(op.step(NOW, Event::Inserted(7)));
    let (op, _) = run(op.step(NOW, Event::Built { addr: 21, size: 9 }));
    let (op, action) = run(op.step(NOW, Event::Inserted(8)));
    match action {
        Action::BuildPage(draft) => {
            assert_eq!(draft.tier, PageTier::Inner);
            assert_eq!(draft.kind, PageKind::Data);
            match draft.items {
                Items::Indexes(items) => assert_eq!(
                    items,
                    vec![(b"".to_vec(), Index::new(7, 0)), (b"b".to_vec(), Index::new(8, 0))]
                ),
                Items::Values(_) => panic!("a root refers to children"),
            }
        }
        other => panic!("{:?}", other),
    }
    let (op, action) = run(op.step(NOW, Event::Built { addr: 22, size: 9 }));
    match action {
        Action::ReplacePage { id, old_addr, new_addr, header, dealloc_addrs } => {
            assert_eq!((id, old_addr, new_addr), (ROOT_ID, 6, 22));
            assert_eq!(header, PageHeader::base());
            assert_eq!(dealloc_addrs, vec![6]);
        }
        other => panic!("{:?}", other),
    }
    let turn = op.step(NOW, Event::Replaced);
    assert_eq!(turn.notes.len(), 1);
    assert!(is_success(&turn.notes[0], Counter::SplitPage));
    assert_eq!(done(turn), Ok(()));
}

fn long_leaf(addr: u64) -> PageHandle {
    PageHandle { id: 2, addr, page: info(PageTier::Leaf, PageKind::Data, 5, 3, 11, 10) }
}

#[test]
fn a_consolidation_leaves_a_large_old_page_alone() {
    let tree = tree();
    let txn = tree.begin();
    let (op, action) = run(ConsolidateOp::start(long_leaf(10), 0, NOW));
    assert!(matches!(action, Action::ReadPage(10, CacheOption::RefillColdWhenNotFull)));
    let first = Page { info: info(PageTier::Leaf, PageKind::Data, 5, 3, 11, 10), items: values(&[b"b"]) };
    let turn = op.step(&txn, NOW, Event::Page(first));
    assert_eq!(turn.notes.len(), 1);
    assert!(matches!(turn.notes[0], Note::ReturnCold));
    let (op, _) = run(turn);
    let second = Page { info: info(PageTier::Leaf, PageKind::Data, 5, 2, 12, 10), items: values(&[b"a"]) };
    let (op, action) = run(op.step(&txn, NOW, Event::Page(second)));
    assert!(matches!(action, Action::ReadPage(12, CacheOption::RefillColdWhenNotFull)));
    let third = Page { info: info(PageTier::Leaf, PageKind::Data, 5, 1, 0, 42), items: values(&[b"a", b"c"]) };
    let turn = op.step(&txn, NOW, Event::Page(third));
    assert!(matches!(turn.notes[0], Note::ConsolidatePageSize(20)));
    assert!(matches!(turn.notes[1], Note::ConsolidateLength(2)));
    let (op, _) = run(turn);
    let (op, action) = run(op.step(&txn, NOW, Event::Begun));
    match action {
        Action::BuildPage(draft) => match draft.items {
            Items::Values(items) => {
                let keys: Vec<Vec<u8>> = items.into_iter().map(|(k, _)| k.raw).collect();
                assert_eq!(keys, vec![b"a".to_vec(), b"b".to_vec()]);
            }
            Items::Indexes(_) => panic!("a leaf page holds values"),
        },
        other => panic!("{:?}", other),
    }
    let (op, action) = run(op.step(&txn, NOW, Event::Built { addr: 30, size: 18 }));
    match action {
        Action::ReplacePage { id, old_addr, new_addr, header, dealloc_addrs } => {
            assert_eq!((id, old_addr, new_addr), (2, 10, 30));
            assert_eq!(header, PageHeader { epoch: 5, chain_len: 2, chain_next: 12 });
            assert_eq!(dealloc_addrs, vec![10, 11]);
        }
        other => panic!("{:?}", other),
    }
    let turn = op.step(&txn, NOW, Event::ReplaceFailed);
    assert!(is_conflict(&turn.notes[0], Counter::ConsolidatePage));
    assert_eq!(done(turn), Err(Error::Again));
}

#[test]
fn a_consolidation_drops_what_a_split_has_given_away() {
    let tree = tree();
    let txn = tree.begin();
    let at = PageHandle { id: 2, addr: 10, page: info(PageTier::Leaf, PageKind::Split, 6, 2, 11, 5) };
    let (op, _) = run(ConsolidateOp::start(at, 0, NOW));
    let split = Page { info: at.page, items: indexes(&[(b"c", 9, 0)]) };
    let turn = op.step(&txn, NOW, Event::Page(split));
    assert_eq!(turn.notes.len(), 0);
    let (op, _) = run(turn);
    let base = Page { info: leaf_info(5), items: values(&[b"a", b"b", b"c", b"d"]) };
    let (op, _) = run(op.step(&txn, NOW, Event::Page(base)));
    let (op, action) = run(op.step(&txn, NOW, Event::Begun));
    match action {
        Action::BuildPage(draft) => match draft.items {
            Items::Values(items) => assert_eq!(items.len(), 2),
            Items::Indexes(_) => panic!("a leaf page holds values"),
        },
        other => panic!("{:?}", other),
    }
    let (op, _) = run(op.step(&txn, NOW, Event::Built { addr: 30, size: 18 }));
    let new = done(op.step(&txn, NOW, Event::Replaced)).expect("the page was replaced");
    assert_eq!(new.addr, 30);
    assert_eq!(new.page, info(PageTier::Leaf, PageKind::Data, 6, 1, 0, 18));
}

#[test]
fn a_consolidation_refuses_what_is_no_chain() {
    let tree = tree();
    let txn = tree.begin();
    let (op, _) = run(ConsolidateOp::start(long_leaf(10), 0, NOW));
    let inner = inner_page(&[(b"", 2, 0)], 0);
    assert_eq!(halted(op.step(&txn, NOW, Event::Page(inner))), Halt::TierMismatch);
    let (op, _) = run(ConsolidateOp::start(long_leaf(10), 0, NOW));
    assert_eq!(halted(op.step(&txn, NOW, Event::Page(split_page(5, &[])))), Halt::SplitDeltaMissing);
    let (op, _) = run(ConsolidateOp::start(long_leaf(10), 0, NOW));
    let huge = Page { info: info(PageTier::Leaf, PageKind::Data, 5, 9, 11, usize::MAX), items: values(&[]) };
    let (op, _) = run(op.step(&txn, NOW, Event::Page(huge)));
    let more = Page { info: info(PageTier::Leaf, PageKind::Data, 5, 9, 12, 1), items: values(&[]) };
    assert_eq!(halted(op.step(&txn, NOW, Event::Page(more))), Halt::Overflow);
    let (op, _) = run(ConsolidateOp::start(long_leaf(10), 0, NOW));
    assert_eq!(done(op.step(&txn, NOW, Event::Failed(Error::Storage(2)))), Err(Error::Storage(2)));
}

#[test]
fn a_restructuring_splits_what_has_become_too_large() {
    let tree = tree();
    let txn = tree.begin();
    let at = PageHandle { id: 2, addr: 10, page: leaf_info(5) };
    let (op, _) = run(RestructureOp::start(&txn, at, NOW));
    let (op, _) = run(op.step(&txn, NOW, Event::Page(leaf_page(&[b"a", b"b"]))));
    let (op, _) = run(op.step(&txn, NOW, Event::Begun));
    let (op, _) = run(op.step(&txn, NOW, Event::Built { addr: 30, size: 101 }));
    let (op, action) = run(op.step(&txn, NOW, Event::Replaced));
    assert!(matches!(op, RestructureOp::Split(_)));
    assert!(matches!(action, Action::ReadPage(30, CacheOption::Default)));
    // Whether the split succeeds does not matter.
    assert_eq!(done(op.step(&txn, NOW, Event::Failed(Error::Storage(2)))), Ok(()));
}

/// A write that has found the leaf page 2 at the address 10 and has built its page.
fn write_about_to_update(tree: &Tree, id: u64) -> WriteOp {
    let txn = tree.begin();
    let (op, _) = run(WriteOp::start(Key::new(b"m".to_vec(), 4), Value::Put(b"v".to_vec()), NOW));
    let op = if id == ROOT_ID {
        op
    } else {
        let (op, _) = run(op.step(&txn, NOW, Event::Addr(5)));
        let root = inner_page(&[(b"", 2, 0)], 0);
        let (op, _) = run(op.step(&txn, NOW, Event::Info(root.info)));
        let (op, _) = run(op.step(&txn, NOW, Event::Page(root)));
        op
    };
    let (op, _) = run(op.step(&txn, NOW, Event::Addr(10)));
    let (op, action) = run(op.step(&txn, NOW, Event::Info(leaf_info(0))));
    assert!(matches!(action, Action::Begin));
    let (op, action) = run(op.step(&txn, NOW, Event::Begun));
    match action {
        Action::BuildPage(draft) => match draft.items {
            Items::Values(items) => {
                assert_eq!(items.len(), 1);
                assert_eq!(items[0].0.raw, b"m".to_vec());
                assert_eq!(items[0].0.lsn, 4);
                assert!(matches!(&items[0].1, Value::Put(v) if v == b"v"));
            }
            Items::Indexes(_) => panic!("a write builds a leaf page"),
        },
        other => panic!("{:?}", other),
    }
    let (op, action) = run(op.step(&txn, NOW, Event::Built { addr: 40, size: 9 }));
    match action {
        Action::UpdatePage { id: to, old_addr, new_addr, header } => {
            assert_eq!((to, old_addr, new_addr), (id, 10, 40));
            assert_eq!(header, PageHeader { epoch: 0, chain_len: 2, chain_next: 10 });
        }
        other => panic!("{:?}", other),
    }
    op
}

#[test]
fn a_write_follows_the_page_while_its_epoch_stays() {
    let tree = tree();
    let txn = tree.begin();
    let op = write_about_to_update(&tree, 2);
    let (op, action) = run(op.step(&txn, NOW, Event::UpdateMoved(13)));
    assert!(matches!(action, Action::ReadPageInfo(13)));
    let moved = info(PageTier::Leaf, PageKind::Data, 0, 2, 10, 7);
    let (op, action) = run(op.step(&txn, NOW, Event::Info(moved)));
    match action {
        Action::UpdatePage { id, old_addr, new_addr, header } => {
            assert_eq!((id, old_addr, new_addr), (2, 13, 40));
            assert_eq!(header, PageHeader { epoch: 0, chain_len: 3, chain_next: 13 });
        }
        other => panic!("{:?}", other),
    }
    let turn = op.step(&txn, NOW, Event::Updated);
    assert_eq!(turn.notes.len(), 4);
    assert!(is_success(&turn.notes[1], Counter::Write));
    assert!(matches!(turn.notes[2], Note::WriteBytes { key: 1, value: 1 }));
    assert_eq!(done(turn), Ok(()));
}

#[test]
fn a_write_begins_again_once_the_epoch_has_changed() {
    let tree = tree();
    let txn = tree.begin();
    let op = write_about_to_update(&tree, 2);
    let (op, _) = run(op.step(&txn, NOW, Event::UpdateMoved(13)));
    let turn = op.step(&txn, NOW, Event::Info(leaf_info(1)));
    assert_eq!(turn.notes.len(), 1);
    assert!(is_conflict(&turn.notes[0], Counter::Write));
    let (op, action) = run(turn);
    assert!(matches!(action, Action::PageAddr(ROOT_ID)));
    assert_eq!(op.key.raw, b"m".to_vec());
}

#[test]
fn a_write_to_the_root_does_not_follow_it() {
    let tree = tree();
    let txn = tree.begin();
    let op = write_about_to_update(&tree, ROOT_ID);
    let turn = op.step(&txn, NOW, Event::UpdateMoved(13));
    assert!(is_conflict(&turn.notes[0], Counter::Write));
    let (_, action) = run(turn);
    assert!(matches!(action, Action::PageAddr(ROOT_ID)));
    let op = write_about_to_update(&tree, ROOT_ID);
    let turn = op.step(&txn, NOW, Event::UpdateLost);
    assert!(is_conflict(&turn.notes[0], Counter::Write));
    let (op, _) = run(WriteOp::start(Key::new(b"m".to_vec(), 4), Value::Delete, NOW));
    let (op, _) = run(op.step(&txn, NOW, Event::Addr(5)));
    assert_eq!(done(op.step(&txn, NOW, Event::Failed(Error::Storage(6)))), Err(Error::Storage(6)));
}

#[test]
fn a_write_splits_a_leaf_page_that_is_too_large_first() {
    let tree = tree();
    let txn = tree.begin();
    let (op, _) = run(WriteOp::start(Key::new(b"m".to_vec(), 4), Value::Delete, NOW));
    let (op, _) = run(op.step(&txn, NOW, Event::Addr(5)));
    let large = info(PageTier::Leaf, PageKind::Data, 0, 1, 0, 101);
    let (op, action) = run(op.step(&txn, NOW, Event::Info(large)));
    assert!(matches!(action, Action::ReadPage(5, CacheOption::Default)));
    // A split that fails does not stop the write.
    let (_, action) = run(op.step(&txn, NOW, Event::Failed(Error::Storage(1))));
    assert!(matches!(action, Action::Begin));
}

#[test]
fn a_write_goes_on_where_the_leaf_page_cannot_be_divided() {
    let tree = tree();
    let txn = tree.begin();
    let large = info(PageTier::Leaf, PageKind::Data, 0, 1, 0, 101);
    for below_root in [false, true] {
        let (op, _) = run(WriteOp::start(Key::new(b"m".to_vec(), 4), Value::Delete, NOW));
        let op = if below_root {
            let root = inner_page(&[(b"", 2, 0)], 0);
            let (op, _) = run(op.step(&txn, NOW, Event::Addr(9)));
            let (op, _) = run(op.step(&txn, NOW, Event::Info(root.info)));
            run(op.step(&txn, NOW, Event::Page(root))).0
        } else {
            op
        };
        let (op, _) = run(op.step(&txn, NOW, Event::Addr(5)));
        let (op, action) = run(op.step(&txn, NOW, Event::Info(large)));
        assert!(matches!(action, Action::ReadPage(5, CacheOption::Default)));
        let page = Page { info: large, items: values(&[b"m"]) };
        let turn = op.step(&txn, NOW, Event::Page(page));
        assert_eq!(turn.notes.len(), 0);
        let (op, action) = run(turn);
        assert!(matches!(action, Action::Begin));
        let (op, _) = run(op.step(&txn, NOW, Event::Begun));
        let (_, action) = run(op.step(&txn, NOW, Event::Built { addr: 40, size: 9 }));
        match action {
            Action::UpdatePage { id, old_addr, new_addr, header } => {
                assert_eq!(id, if below_root { 2 } else { ROOT_ID });
                assert_eq!((old_addr, new_addr), (5, 40));
                assert_eq!(header, PageHeader { epoch: 0, chain_len: 2, chain_next: 5 });
            }
            other => panic!("{:?}", other),
        }
    }
}

#[test]
fn a_write_begins_again_once_the_leaf_page_has_been_divided() {
    let tree = tree();
    let txn = tree.begin();
    let large = info(PageTier::Leaf, PageKind::Data, 0, 1, 0, 101);
    let (op, _) = run(WriteOp::start(Key::new(b"m".to_vec(), 4), Value::Delete, NOW));
    let root = inner_page(&[(b"", 2, 0)], 0);
    let (op, _) = run(op.step(&txn, NOW, Event::Addr(9)));
    let (op, _) = run(op.step(&txn, NOW, Event::Info(root.info)));
    let (op, _) = run(op.step(&txn, NOW, Event::Page(root)));
    let (op, _) = run(op.step(&txn, NOW, Event::Addr(5)));
    let (op, _) = run(op.step(&txn, NOW, Event::Info(large)));
    let page = Page { info: large, items: values(&[b"m", b"n"]) };
    let (op, _) = run(op.step(&txn, NOW, Event::Page(page)));
    let (op, _) = run(op.step(&txn, NOW, Event::Begun));
    let (op, _) = run(op.step(&txn, NOW, Event::Built { addr: 21, size: 9 }));
    let (op, _) = run(op.step(&txn, NOW, Event::Inserted(8)));
    let (op, _) = run(op.step(&txn, NOW, Event::Built { addr: 22, size: 9 }));
    let turn = op.step(&txn, NOW, Event::Updated);
    assert!(is_conflict(turn.notes.last().expect("a note"), Counter::Write));
    let (_, action) = run(turn);
    assert!(matches!(action, Action::PageAddr(ROOT_ID)));
}

#[test]
fn a_read_walks_the_chain_to_its_end() {
    let tree = tree();
    let txn = tree.begin();
    let (op, _) = run(GetOp::start(Key::new(b"m".to_vec(), 4), NOW));
    let (op, _) = run(op.step(&txn, NOW, Event::Addr(5)));
    let (op, action) = run(op.step(&txn, NOW, Event::Info(leaf_info(0))));
    assert!(matches!(action, Action::ReadPage(5, CacheOption::Default)));
    let newer = Page { info: info(PageTier::Leaf, PageKind::Data, 0, 2, 6, 1), items: values(&[b"a"]) };
    let (op, action) = run(op.step(&txn, NOW, Event::Page(newer)));
    assert!(matches!(action, Action::ReadPage(6, CacheOption::Default)));
    let turn = op.step(&txn, NOW, Event::Page(leaf_page(&[b"m"])));
    assert!(matches!(turn.notes[1], Note::ReadBytes { key: 1, value: 1 }));
    assert_eq!(done(turn), Ok(Some(b"m".to_vec())));
    let (op, _) = run(GetOp::start(Key::new(b"m".to_vec(), 4), NOW));
    let (op, _) = run(op.step(&txn, NOW, Event::Addr(5)));
    let (op, _) = run(op.step(&txn, NOW, Event::Info(leaf_info(0))));
    assert_eq!(done(op.step(&txn, NOW, Event::Failed(Error::Storage(4)))), Err(Error::Storage(4)));
}

#[test]
fn an_iterator_hands_a_failure_on() {
    let tree = tree();
    let txn = tree.begin();
    let (op, _) = run(TreeIter::new(ReadOptions { max_lsn: 1 }).next_page());
    let op: NextPageOp = op;
    let (op, _) = run(op.step(&txn, NOW, Event::Addr(5)));
    let (_, result) = done(op.step(&txn, NOW, Event::Failed(Error::Storage(5))));
    assert!(matches!(result, Err(Error::Storage(5))));
}
