use photondb::get::GetOp;
use photondb::init::InitOp;
use photondb::iter::{NextPageOp, PageIter, TreeIter};
use photondb::note::Note;
use photondb::page::{
    Index, Items, Key, Page, PageHeader, PageInfo, PageKind, PageTier, Value, ROOT_ID,
};
use photondb::perf::PerfCtx;
use photondb::tree::{Options, ReadOptions, Tree};
use photondb::turn::{Action, Error, Event, Next, Turn};
use photondb::write::WriteOp;
use std::time::Duration;

/// A page store in memory.
struct Store {
    table: Vec<u64>,
    pages: Vec<Option<Page>>,
}

fn copy_items(items: &Items) -> Items {
    match items {
        Items::Values(v) => {
            Items::Values(v.iter().map(|(k, x)| (k.copy(), x.copy())).collect())
        }
        Items::Indexes(v) => Items::Indexes(v.clone()),
    }
}

fn size_of(items: &Items) -> usize {
    match items {
        Items::Values(v) => v.iter().map(|(k, x)| k.len() + x.len() + 8).sum(),
        Items::Indexes(v) => v.iter().map(|(k, _)| k.len() + 16).sum(),
    }
}

impl Store {
    fn new() -> Store {
        Store { table: vec![0], pages: vec![None] }
    }

    fn addr(&self, id: u64) -> u64 {
        *self.table.get(id as usize).unwrap_or(&0)
    }

    fn page(&self, addr: u64) -> &Page {
        self.pages[addr as usize].as_ref().expect("the page is stored")
    }

    fn put(&mut self, id: u64, old_addr: u64, new_addr: u64, header: PageHeader) -> bool {
        if self.addr(id) != old_addr {
            return false;
        }
        let page = self.pages[new_addr as usize].as_mut().expect("the page is stored");
        page.info.epoch = header.epoch;
        page.info.chain_len = header.chain_len;
        page.info.chain_next = header.chain_next;
        self.table[id as usize] = new_addr;
        true
    }

    fn perform(&mut self, action: Action) -> Event {
        match action {
            Action::PageAddr(id) => Event::Addr(self.addr(id)),
            Action::ReadPageInfo(addr) => Event::Info(self.page(addr).info),
            Action::ReadPage(addr, _) => {
                let page = self.page(addr);
                Event::Page(Page { info: page.info, items: copy_items(&page.items) })
            }
            Action::Begin => Event::Begun,
            Action::BuildPage(draft) => {
                let size = size_of(&draft.items);
                let addr = self.pages.len() as u64;
                let info =
                    PageInfo::built(draft.tier, draft.kind, &PageHeader::base(), size);
                self.pages.push(Some(Page { info, items: draft.items }));
                Event::Built { addr, size }
            }
            Action::InsertPage(addr) => {
                self.table.push(addr);
                Event::Inserted(self.table.len() as u64 - 1)
            }
            Action::UpdatePage { id, old_addr, new_addr, header } => {
                if self.put(id, old_addr, new_addr, header) {
                    Event::Updated
                } else {
                    Event::UpdateMoved(self.addr(id))
                }
            }
            Action::ReplacePage { id, old_addr, new_addr, header, dealloc_addrs } => {
                if self.put(id, old_addr, new_addr, header) {
                    for addr in dealloc_addrs {
                        self.pages[addr as usize] = None;
                    }
                    Event::Replaced
                } else {
                    Event::ReplaceFailed
                }
            }
            Action::Commit => Event::Committed,
        }
    }
}

/// A tree over a store in memory.
struct Db {
    tree: Tree,
    store: Store,
    perf: PerfCtx,
    now: Duration,
}

impl Db {
    fn new(page_size: usize, page_chain_length: usize) -> Db {
        let mut db = Db {
            tree: Tree::new(Options { page_size, page_chain_length }),
            store: Store::new(),
            perf: PerfCtx::default(),
            now: Duration::ZERO,
        };
        db.init();
        db
    }

    fn record(&mut self, notes: Vec<Note>) {
        for note in notes {
            self.tree.record(&note);
            assert!(self.perf.can_record(&note));
            self.perf.record(&note);
        }
    }

    fn answer(&mut self, action: Action) -> Event {
        let event = self.store.perform(action);
        assert!(event.is_wf());
        self.now += Duration::from_millis(1);
        event
    }

    fn init(&mut self) {
        let mut turn = InitOp::start();
        loop {
            let Turn { notes, next } = turn;
            self.record(notes);
            turn = match next {
                Next::Run(op, action) => op.step(self.answer(action)),
                Next::Done(result) => return result.expect("the store works"),
                Next::Halt(halt) => panic!("{:?}", halt),
            };
        }
    }

    fn write(&mut self, key: Key, value: Value) {
        let mut turn = WriteOp::start(key, value, self.now);
        loop {
            let Turn { notes, next } = turn;
            self.record(notes);
            turn = match next {
                Next::Run(op, action) => {
                    let event = self.answer(action);
                    op.step(&self.tree.begin(), self.now, event)
                }
                Next::Done(result) => return result.expect("the store works"),
                Next::Halt(halt) => panic!("{:?}", halt),
            };
        }
    }

    fn put(&mut self, raw: &[u8], lsn: u64, value: &[u8]) {
        self.write(Key::new(raw.to_vec(), lsn), Value::Put(value.to_vec()));
    }

    fn delete(&mut self, raw: &[u8], lsn: u64) {
        self.write(Key::new(raw.to_vec(), lsn), Value::Delete);
    }

    fn get(&mut self, raw: &[u8], lsn: u64) -> Option<Vec<u8>> {
        let mut turn = GetOp::start(Key::new(raw.to_vec(), lsn), self.now);
        loop {
            let Turn { notes, next } = turn;
            self.record(notes);
            turn = match next {
                Next::Run(op, action) => {
                    let event = self.answer(action);
                    op.step(&self.tree.begin(), self.now, event)
                }
                Next::Done(result) => return result.expect("the store works"),
                Next::Halt(halt) => panic!("{:?}", halt),
            };
        }
    }

    fn next_page(&mut self, iter: TreeIter) -> (TreeIter, Option<PageIter>) {
        let mut turn: Turn<NextPageOp, (TreeIter, Result<Option<PageIter>, Error>)> =
            iter.next_page();
        loop {
            let Turn { notes, next } = turn;
            self.record(notes);
            turn = match next {
                Next::Run(op, action) => {
                    let event = self.answer(action);
                    op.step(&self.tree.begin(), self.now, event)
                }
                Next::Done((iter, result)) => return (iter, result.expect("the store works")),
                Next::Halt(halt) => panic!("{:?}", halt),
            };
        }
    }

    fn all_keys(&mut self) -> Vec<(Vec<u8>, u64)> {
        let mut keys = Vec::new();
        let mut iter = TreeIter::new(ReadOptions { max_lsn: u64::MAX });
        loop {
            let (rest, page) = self.next_page(iter);
            iter = rest;
            match page {
                Some(page) => {
                    assert_eq!(page.next, 0);
                    for (key, _) in page.items {
                        keys.push((key.raw, key.lsn));
                    }
                }
                None => return keys,
            }
        }
    }
}

fn key_of(n: u64) -> Vec<u8> {
    format!("key{:05}", n).into_bytes()
}

fn value_of(n: u64) -> Vec<u8> {
    format!("value{}", n).into_bytes()
}

/// The numbers below `count`, mixed.
fn mixed(count: u64) -> Vec<u64> {
    (0..count).map(|i| (i * 7919 + 13) % count).collect()
}

#[test]
fn init_makes_an_empty_leaf_the_root() {
    let mut db = Db::new(64, 4);
    let addr = db.store.addr(ROOT_ID);
    let page = db.store.page(addr);
    assert_eq!(page.info.tier, PageTier::Leaf);
    assert_eq!(page.info.kind, PageKind::Data);
    assert_eq!(page.info.epoch, 0);
    assert_eq!(page.info.chain_len, 1);
    assert_eq!(page.info.chain_next, 0);
    assert!(matches!(&page.items, Items::Values(v) if v.is_empty()));
    assert_eq!(db.get(b"a", 9), None);
    db.init();
    assert_eq!(db.store.addr(ROOT_ID), addr);
    assert_eq!(db.store.table.len(), 2);
}

#[test]
fn a_write_is_read_from_its_sequence_number_on() {
    let mut db = Db::new(1 << 20, 8);
    db.put(b"a", 5, b"one");
    assert_eq!(db.get(b"a", 4), None);
    assert_eq!(db.get(b"a", 5), Some(b"one".to_vec()));
    assert_eq!(db.get(b"a", 6), Some(b"one".to_vec()));
    assert_eq!(db.get(b"b", 6), None);
    assert_eq!(db.get(b"", 6), None);
    db.put(b"a", 7, b"two");
    assert_eq!(db.get(b"a", 6), Some(b"one".to_vec()));
    assert_eq!(db.get(b"a", 7), Some(b"two".to_vec()));
    db.delete(b"a", 9);
    assert_eq!(db.get(b"a", 8), Some(b"two".to_vec()));
    assert_eq!(db.get(b"a", 9), None);
    db.put(b"", 10, b"empty");
    assert_eq!(db.get(b"", 10), Some(b"empty".to_vec()));
    assert_eq!(db.get(b"a", 10), None);
}

#[test]
fn a_tree_that_splits_and_consolidates_loses_nothing() {
    let mut db = Db::new(256, 4);
    let count = 600;
    for (i, n) in mixed(count).into_iter().enumerate() {
        db.put(&key_of(n), i as u64 + 1, &value_of(n));
        assert_eq!(db.get(&key_of(n), u64::MAX), Some(value_of(n)));
    }
    for n in 0..count {
        assert_eq!(db.get(&key_of(n), u64::MAX), Some(value_of(n)));
    }
    assert_eq!(db.get(&key_of(count), u64::MAX), None);
    let stats = db.tree.stats();
    assert_eq!(stats.success.write, count);
    assert!(stats.success.split_page > 1);
    assert!(stats.success.reconcile_page > 1);
    assert!(stats.success.consolidate_page > 1);
    // A search that meets a page that has been split begins again.
    assert!(stats.conflict.read > 0);
    assert_eq!(stats.conflict.split_page, 0);
    // The root has become an inner page above other inner pages.
    let root = db.store.page(db.store.addr(ROOT_ID));
    assert_eq!(root.info.tier, PageTier::Inner);
    assert_eq!(root.info.epoch, 0);
    assert!(db.perf.consolidate_page_size > 0);
    assert!(db.perf.consolidate_length > 0);
    assert!(db.perf.split_page > Duration::ZERO);
    assert!(db.perf.consolidate_page > Duration::ZERO);
    assert!(db.perf.collect_info > Duration::ZERO);
}

#[test]
fn an_iterator_comes_to_every_key_once_and_in_order() {
    let mut db = Db::new(256, 4);
    let count = 400;
    for (i, n) in mixed(count).into_iter().enumerate() {
        db.put(&key_of(n), i as u64 + 1, &value_of(n));
    }
    let keys: Vec<Vec<u8>> = db.all_keys().into_iter().map(|(raw, _)| raw).collect();
    let expected: Vec<Vec<u8>> = (0..count).map(key_of).collect();
    assert_eq!(keys, expected);
}

#[test]
fn the_entries_of_an_iteration_are_what_reads_return() {
    let mut db = Db::new(256, 4);
    let mut lsn = 0;
    for n in mixed(200) {
        lsn += 1;
        db.put(&key_of(n), lsn, &value_of(n));
    }
    for n in (0..200).step_by(3) {
        lsn += 1;
        db.delete(&key_of(n), lsn);
    }
    let seen = lsn;
    for n in (0..200).step_by(2) {
        lsn += 1;
        db.put(&key_of(n), lsn, b"later");
        // Once more with the same number.
        db.put(&key_of(n), lsn, b"last");
    }
    for max_lsn in [0, 100, seen, lsn] {
        let mut iter = TreeIter::new(ReadOptions { max_lsn });
        let mut entries = Vec::new();
        loop {
            let (rest, page) = db.next_page(iter);
            iter = rest;
            let Some(mut page) = page else { break };
            while let Some(entry) = page.next_entry() {
                entries.push(entry);
            }
        }
        let mut expected = Vec::new();
        for n in 0..200 {
            if let Some(value) = db.get(&key_of(n), max_lsn) {
                expected.push((key_of(n), value));
            }
        }
        assert_eq!(entries, expected);
        assert_eq!(entries.is_empty(), max_lsn == 0);
    }
}

#[test]
fn an_iterator_hands_out_the_page_of_a_small_tree() {
    let mut db = Db::new(1 << 20, 8);
    db.put(b"b", 1, b"x");
    db.put(b"a", 2, b"y");
    db.delete(b"b", 3);
    let iter = TreeIter::new(ReadOptions { max_lsn: 7 });
    let (iter, page) = db.next_page(iter);
    let page = page.expect("there is a first page");
    assert_eq!(page.max_lsn, 7);
    assert_eq!(page.next, 0);
    let keys: Vec<(Vec<u8>, u64)> =
        page.items.iter().map(|(k, _)| (k.raw.clone(), k.lsn)).collect();
    assert_eq!(keys, vec![(b"a".to_vec(), 2), (b"b".to_vec(), 3), (b"b".to_vec(), 1)]);
    let (iter, page) = db.next_page(iter);
    assert!(page.is_none());
    let (_, page) = db.next_page(iter);
    assert!(page.is_none());
}

#[test]
fn an_iterator_goes_on_after_pages_have_split_under_it() {
    let mut db = Db::new(256, 4);
    for n in 0..100 {
        db.put(&key_of(2 * n), n + 1, &value_of(n));
    }
    let iter = TreeIter::new(ReadOptions { max_lsn: u64::MAX });
    let (mut iter, page) = db.next_page(iter);
    let page = page.expect("there is a first page");
    let mut keys: Vec<Vec<u8>> = page.items.into_iter().map(|(k, _)| k.raw).collect();
    for n in 50..100 {
        db.put(&key_of(2 * n + 1), 1000 + n, &value_of(n));
    }
    loop {
        let (rest, page) = db.next_page(iter);
        iter = rest;
        match page {
            Some(page) => keys.extend(page.items.into_iter().map(|(k, _)| k.raw)),
            None => break,
        }
    }
    let mut expected: Vec<Vec<u8>> = (0..100).map(|n| key_of(2 * n)).collect();
    expected.extend((50..100).map(|n| key_of(2 * n + 1)));
    expected.sort();
    assert_eq!(keys, expected);
}

#[test]
fn consolidation_drops_only_what_no_reader_needs() {
    let mut db = Db::new(1 << 20, 3);
    db.put(b"a", 1, b"one");
    db.put(b"a", 2, b"two");
    db.tree.set_safe_lsn(2);
    db.put(b"a", 3, b"three");
    // The chain is now four pages long, one more than is allowed.
    let page = db.store.page(db.store.addr(ROOT_ID));
    assert_eq!(page.info.chain_len, 1);
    assert_eq!(db.get(b"a", 2), Some(b"two".to_vec()));
    assert_eq!(db.get(b"a", 3), Some(b"three".to_vec()));
    assert_eq!(db.get(b"a", 1), None);
    assert_eq!(db.all_keys(), vec![(b"a".to_vec(), 3), (b"a".to_vec(), 2)]);
    assert_eq!(db.tree.stats().success.consolidate_page, 1);
    assert_eq!(db.perf.consolidate_length, 4);
    assert_eq!(db.perf.consolidate_page_size, 0 + 12 + 12 + 14);
}

#[test]
fn a_root_that_is_too_large_and_cannot_be_divided_takes_writes() {
    let mut db = Db::new(64, 2);
    for lsn in 1..21 {
        db.put(b"a", lsn, &[lsn as u8; 100]);
        assert_eq!(db.get(b"a", lsn), Some(vec![lsn as u8; 100]));
    }
    let root = db.store.page(db.store.addr(ROOT_ID));
    assert_eq!(root.info.tier, PageTier::Leaf);
    assert!(db.tree.stats().success.consolidate_page > 0);
    assert_eq!(db.tree.stats().success.split_page, 0);
    assert_eq!(db.tree.stats().success.write, 20);
    assert_eq!(db.tree.stats().conflict.write, 0);
    // All versions of the key are still needed.
    for lsn in 1..21 {
        assert_eq!(db.get(b"a", lsn), Some(vec![lsn as u8; 100]));
    }
    // The middle of the page is still a version of its first key.
    db.put(b"b", 21, b"x");
    for lsn in 22..30 {
        db.put(b"a", lsn, b"y");
    }
    assert_eq!(db.tree.stats().success.split_page, 0);
    // Once it is a version of another key, the root is divided.
    for lsn in 30..70 {
        db.put(b"b", lsn, &[lsn as u8; 100]);
    }
    assert!(db.tree.stats().success.split_page > 0);
    assert_eq!(db.tree.stats().success.write, 69);
    assert_eq!(db.get(b"a", 20), Some(vec![20; 100]));
    assert_eq!(db.get(b"b", 21), Some(b"x".to_vec()));
    assert_eq!(db.get(b"a", 69), Some(b"y".to_vec()));
    assert_eq!(db.get(b"b", 69), Some(vec![69; 100]));
}

#[test]
fn a_leaf_page_below_the_root_that_cannot_be_divided_takes_writes() {
    let mut db = Db::new(64, 2);
    // One key of each leaf page, with more than fits into a page.
    for round in 0..10 {
        for n in 0..4 {
            let lsn = 4 * round + n + 1;
            db.put(&key_of(n), lsn, &[lsn as u8; 100]);
            assert_eq!(db.get(&key_of(n), lsn), Some(vec![lsn as u8; 100]));
        }
    }
    let root = db.store.page(db.store.addr(ROOT_ID));
    assert_eq!(root.info.tier, PageTier::Inner);
    assert_eq!(db.tree.stats().success.write, 40);
    for round in 0..10 {
        for n in 0..4 {
            let lsn = 4 * round + n + 1;
            assert_eq!(db.get(&key_of(n), lsn), Some(vec![lsn as u8; 100]));
        }
    }
    let keys: Vec<Vec<u8>> = db.all_keys().into_iter().map(|(raw, _)| raw).collect();
    let mut expected = Vec::new();
    for n in 0..4 {
        expected.extend(vec![key_of(n); 10]);
    }
    assert_eq!(keys, expected);
}

#[test]
fn a_key_that_is_written_twice_with_one_number_is_kept_once() {
    let mut db = Db::new(1 << 20, 3);
    db.put(b"a", 1, b"one");
    db.put(b"a", 1, b"two");
    assert_eq!(db.get(b"a", 1), Some(b"two".to_vec()));
    db.put(b"b", 2, b"x");
    // The chain has been consolidated.
    let page = db.store.page(db.store.addr(ROOT_ID));
    assert_eq!(page.info.chain_len, 1);
    assert!(page.is_wf());
    assert_eq!(db.get(b"a", 1), Some(b"two".to_vec()));
    assert_eq!(db.all_keys(), vec![(b"a".to_vec(), 1), (b"b".to_vec(), 2)]);
    // And once more, with the kept one as the older page.
    db.put(b"a", 1, b"three");
    db.put(b"c", 3, b"y");
    db.put(b"d", 4, b"z");
    let page = db.store.page(db.store.addr(ROOT_ID));
    assert_eq!(page.info.chain_len, 1);
    assert!(page.is_wf());
    assert_eq!(db.get(b"a", 1), Some(b"three".to_vec()));
}

#[test]
fn a_reader_gets_the_same_whatever_others_write() {
    let mut db = Db::new(256, 4);
    for n in 0..50 {
        db.put(&key_of(2 * n), n + 1, &value_of(n));
    }
    let before: Vec<Option<Vec<u8>>> = (0..100).map(|n| db.get(&key_of(n), 50)).collect();
    for n in 0..50 {
        db.put(&key_of(2 * n + 1), 100 + n, &value_of(n));
        db.put(&key_of(2 * n), 200 + n, b"later");
    }
    let after: Vec<Option<Vec<u8>>> = (0..100).map(|n| db.get(&key_of(n), 50)).collect();
    assert_eq!(after, before);
    assert!(db.tree.stats().success.split_page > 1);
}

#[test]
fn an_iterator_that_was_sent_on_skips_what_comes_before() {
    let mut db = Db::new(256, 4);
    for n in 0..100 {
        db.put(&key_of(n), n + 1, &value_of(n));
    }
    let mut iter = TreeIter {
        options: ReadOptions { max_lsn: 70 },
        inner_iter: None,
        inner_next: Some(key_of(42)),
    };
    let mut keys = Vec::new();
    let mut values = Vec::new();
    loop {
        let (rest, page) = db.next_page(iter);
        iter = rest;
        let Some(page) = page else { break };
        assert_eq!(page.max_lsn, 70);
        for (key, value) in page.items.into_iter().skip(page.next) {
            keys.push(key.raw);
            values.push(value);
        }
    }
    assert_eq!(keys, (42..100).map(key_of).collect::<Vec<_>>());
    for (n, value) in (42..100).zip(values) {
        assert!(matches!(value, Value::Put(v) if v == value_of(n)));
        assert_eq!(db.get(&key_of(n), u64::MAX), Some(value_of(n)));
    }
}

#[test]
fn counters_count_operations_and_bytes() {
    let mut db = Db::new(1 << 20, 8);
    db.put(b"abc", 1, b"hello");
    db.delete(b"abcd", 2);
    let stats = db.tree.stats();
    assert_eq!(stats.success.write, 2);
    assert_eq!(stats.success.write_bytes, 8 + 4);
    assert_eq!(stats.success.read, 2);
    assert_eq!(stats.success.read_bytes, 0);
    db.get(b"abc", 2);
    db.get(b"zz", 2);
    let stats = db.tree.stats();
    assert_eq!(stats.success.read, 4);
    assert_eq!(stats.success.read_bytes, 8 + 2);
    assert_eq!(stats.conflict.read, 0);
    assert_eq!(stats.conflict.write, 0);
    // Looking up the address, reading the header and reading three pages takes five steps.
    assert_eq!(db.perf.total, Duration::from_millis(5));
    assert_eq!(db.perf.find_value, Duration::from_millis(2));
}

#[test]
fn a_page_is_not_met_twice_in_a_chain() {
    let mut db = Db::new(256, 4);
    for n in 0..200 {
        db.put(&key_of(n), n + 1, &value_of(n));
    }
    for id in 1..db.store.table.len() as u64 {
        let mut addrs = Vec::new();
        let mut addr = db.store.addr(id);
        while addr != 0 {
            assert!(!addrs.contains(&addr));
            addrs.push(addr);
            addr = db.store.page(addr).info.chain_next;
        }
        let head = db.store.page(db.store.addr(id));
        assert_eq!(head.info.chain_len as usize, addrs.len());
    }
}

#[test]
fn children_are_referred_to_by_the_epoch_of_their_pages() {
    let mut db = Db::new(256, 4);
    for n in 0..40 {
        db.put(&key_of(n), n + 1, &value_of(n));
    }
    for n in 0..40 {
        db.get(&key_of(n), 100);
    }
    let root = db.store.page(db.store.addr(ROOT_ID));
    assert_eq!(root.info.tier, PageTier::Inner);
    let mut newest: Vec<(Vec<u8>, Index)> = Vec::new();
    let mut addr = db.store.addr(ROOT_ID);
    while addr != 0 {
        let page = db.store.page(addr);
        if let (PageKind::Data, Items::Indexes(items)) = (page.info.kind, &page.items) {
            for (raw, index) in items {
                if index.id != 0 && !newest.iter().any(|(r, _)| r == raw) {
                    newest.push((raw.clone(), *index));
                }
            }
        }
        addr = page.info.chain_next;
    }
    assert!(newest.len() > 2);
    for (_, index) in newest {
        let child = db.store.page(db.store.addr(index.id));
        assert_eq!(child.info.epoch, index.epoch);
    }
}
