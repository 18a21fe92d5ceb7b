use photondb::bytes::{bytes_copy, bytes_less, bytes_same};
use photondb::iter::{InnerPageIter, PageIter};
use photondb::lookup::{child_in_page, is_split_delta, split_delta_from_page, value_in_page};
use photondb::merge::{
    drop_dead_children, drop_old_versions, limit_items, merge_pages, merge_pair, split_items,
};
use photondb::page::{
    is_sorted, rank, Index, Items, Key, Page, PageHeader, PageInfo, PageKind, PageTier, Value,
};
use photondb::tree::{Options, Tree};

fn version(raw: &[u8], lsn: u64) -> (Key, Value) {
    (Key::new(raw.to_vec(), lsn), Value::Put(vec![lsn as u8]))
}

fn child(raw: &[u8], id: u64) -> (Vec<u8>, Index) {
    (raw.to_vec(), Index::new(id, 0))
}

fn positions(items: &[(Key, Value)]) -> Vec<(Vec<u8>, u64)> {
    items.iter().map(|(k, _)| (k.raw.clone(), k.lsn)).collect()
}

fn page(tier: PageTier, kind: PageKind, items: Items) -> Page {
    let info = PageInfo { tier, kind, epoch: 0, chain_len: 1, chain_next: 0, size: 0 };
    Page { info, items }
}

#[test]
fn byte_strings_are_ordered_like_words() {
    assert!(bytes_less(b"", b"a"));
    assert!(bytes_less(b"a", b"ab"));
    assert!(bytes_less(b"ab", b"b"));
    assert!(!bytes_less(b"b", b"ab"));
    assert!(!bytes_less(b"a", b"a"));
    assert!(bytes_same(b"ab", b"ab"));
    assert!(!bytes_same(b"ab", b"abc"));
    assert_eq!(bytes_copy(b"xyz"), b"xyz".to_vec());
}

#[test]
fn newer_versions_of_a_key_come_first() {
    let items = vec![version(b"a", 3), version(b"a", 1), version(b"b", 2)];
    assert!(is_sorted(&items));
    assert_eq!(rank(&items, b"a", 3), Ok(0));
    assert_eq!(rank(&items, b"a", 2), Err(1));
    assert_eq!(rank(&items, b"a", 4), Err(0));
    assert_eq!(rank(&items, b"a", 0), Err(2));
    assert_eq!(rank(&items, b"b", 2), Ok(2));
    assert_eq!(rank(&items, b"c", 0), Err(3));
    assert!(!is_sorted(&vec![version(b"a", 1), version(b"a", 3)]));
    assert!(!is_sorted(&vec![version(b"a", 1), version(b"a", 1)]));
}

#[test]
fn a_page_must_fit_its_header() {
    assert!(page(PageTier::Leaf, PageKind::Data, Items::Values(vec![])).is_wf());
    assert!(!page(PageTier::Leaf, PageKind::Split, Items::Values(vec![])).is_wf());
    assert!(page(PageTier::Leaf, PageKind::Split, Items::Indexes(vec![])).is_wf());
    assert!(!page(PageTier::Inner, PageKind::Data, Items::Values(vec![])).is_wf());
    let unsorted = vec![child(b"b", 2), child(b"a", 3)];
    assert!(!page(PageTier::Inner, PageKind::Data, Items::Indexes(unsorted)).is_wf());
}

#[test]
fn a_page_says_what_its_newest_visible_version_holds() {
    let items = vec![
        (Key::new(b"a".to_vec(), 5), Value::Delete),
        version(b"a", 3),
        version(b"b", 2),
    ];
    let page = page(PageTier::Leaf, PageKind::Data, Items::Values(items));
    assert_eq!(value_in_page(&page, &Key::new(b"a".to_vec(), 9)), Some(None));
    assert_eq!(value_in_page(&page, &Key::new(b"a".to_vec(), 4)), Some(Some(vec![3])));
    assert_eq!(value_in_page(&page, &Key::new(b"a".to_vec(), 2)), None);
    assert_eq!(value_in_page(&page, &Key::new(b"c".to_vec(), 9)), None);
}

#[test]
fn a_page_names_the_child_that_encloses_the_key() {
    let items = vec![child(b"b", 2), child(b"d", 3), child(b"f", 0)];
    let page = page(PageTier::Inner, PageKind::Data, Items::Indexes(items));
    assert!(child_in_page(&page, b"a").is_none());
    let (index, range) = child_in_page(&page, b"b").expect("a child");
    assert_eq!(index, Index::new(2, 0));
    assert_eq!((range.start, range.end), (b"b".to_vec(), Some(b"d".to_vec())));
    let (index, range) = child_in_page(&page, b"e").expect("a child");
    assert_eq!(index, Index::new(3, 0));
    assert_eq!((range.start, range.end), (b"d".to_vec(), Some(b"f".to_vec())));
    assert!(child_in_page(&page, b"f").is_none());
    assert!(child_in_page(&page, b"g").is_none());
}

#[test]
fn the_last_child_has_no_end() {
    let items = vec![child(b"", 2), child(b"d", 3)];
    let page = page(PageTier::Inner, PageKind::Data, Items::Indexes(items));
    let (index, range) = child_in_page(&page, b"z").expect("a child");
    assert_eq!(index, Index::new(3, 0));
    assert_eq!((range.start, range.end), (b"d".to_vec(), None));
}

#[test]
fn a_split_is_announced_by_the_first_item() {
    let announced = page(PageTier::Leaf, PageKind::Split, Items::Indexes(vec![child(b"k", 7)]));
    assert!(is_split_delta(&announced));
    assert_eq!(split_delta_from_page(&announced), (b"k".to_vec(), Index::new(7, 0)));
    assert!(!is_split_delta(&page(PageTier::Leaf, PageKind::Split, Items::Indexes(vec![]))));
}

#[test]
fn merging_puts_the_newer_page_first() {
    let merged = merge_pages(vec![
        vec![version(b"b", 9)],
        vec![version(b"a", 7), version(b"b", 6)],
        vec![version(b"a", 2), version(b"c", 1)],
    ]);
    let expected: Vec<(Vec<u8>, u64)> = vec![
        (b"a".to_vec(), 7),
        (b"a".to_vec(), 2),
        (b"b".to_vec(), 9),
        (b"b".to_vec(), 6),
        (b"c".to_vec(), 1),
    ];
    assert_eq!(positions(&merged), expected);
    let pair = merge_pair(vec![child(b"a", 5)], vec![child(b"a", 4)]);
    assert_eq!(pair, vec![child(b"a", 5), child(b"a", 4)]);
    assert_eq!(merge_pages(Vec::<Vec<(Vec<u8>, Index)>>::new()), vec![]);
}

#[test]
fn a_limit_cuts_off_the_keys_from_it_on() {
    let items = vec![child(b"a", 1), child(b"b", 2), child(b"c", 3)];
    assert_eq!(limit_items(items.clone(), &Some(b"b".to_vec())), vec![child(b"a", 1)]);
    assert_eq!(limit_items(items.clone(), &None), items);
    assert_eq!(limit_items(items, &Some(Vec::new())), vec![]);
}

#[test]
fn versions_behind_a_safe_one_are_dropped() {
    let items = vec![
        version(b"a", 9),
        version(b"a", 5),
        version(b"a", 4),
        version(b"a", 1),
        version(b"b", 2),
    ];
    let kept = drop_old_versions(items, 5);
    assert_eq!(
        positions(&kept),
        vec![(b"a".to_vec(), 9), (b"a".to_vec(), 5), (b"b".to_vec(), 2)]
    );
    let items = vec![version(b"a", 9), version(b"a", 5)];
    assert_eq!(positions(&drop_old_versions(items, 0)).len(), 2);
}

#[test]
fn of_two_versions_with_one_number_the_newer_one_is_kept() {
    let newer = (Key::new(b"a".to_vec(), 7), Value::Put(b"newer".to_vec()));
    let older = (Key::new(b"a".to_vec(), 7), Value::Put(b"older".to_vec()));
    let merged = merge_pages(vec![vec![newer], vec![older, version(b"a", 6)]]);
    let kept = drop_old_versions(merged, 0);
    assert_eq!(positions(&kept), vec![(b"a".to_vec(), 7), (b"a".to_vec(), 6)]);
    assert!(matches!(&kept[0].1, Value::Put(v) if v == b"newer"));
    assert!(is_sorted(&kept));
}

#[test]
fn placeholders_and_overwritten_children_are_dropped() {
    let items = vec![
        child(b"a", 5),
        child(b"a", 4),
        child(b"b", 0),
        child(b"b", 3),
        child(b"c", 0),
    ];
    assert_eq!(drop_dead_children(items), vec![child(b"a", 5), child(b"b", 3)]);
}

#[test]
fn a_page_parts_at_the_first_version_of_its_middle_key() {
    let items = vec![version(b"a", 1), version(b"b", 9), version(b"b", 8), version(b"b", 7)];
    let (split_key, left, right) = split_items(Items::Values(items)).expect("the page parts");
    assert_eq!(split_key, b"b".to_vec());
    assert!(matches!(left, Items::Values(v) if v.len() == 1));
    assert!(matches!(right, Items::Values(v) if v.len() == 3));
    assert!(split_items(Items::Values(vec![version(b"a", 1)])).is_none());
    assert!(split_items(Items::Values(vec![])).is_none());
    let items = vec![version(b"a", 3), version(b"a", 2), version(b"b", 1)];
    assert!(split_items(Items::Values(items)).is_none());
    let (split_key, _, _) =
        split_items(Items::Indexes(vec![child(b"", 1), child(b"m", 2)])).expect("the page parts");
    assert_eq!(split_key, b"m".to_vec());
}

#[test]
fn headers_chain_pages_and_saturate() {
    let info = PageInfo {
        tier: PageTier::Leaf,
        kind: PageKind::Data,
        epoch: 3,
        chain_len: 254,
        chain_next: 9,
        size: 1,
    };
    let header = PageHeader::chained(7, &info, 20);
    assert_eq!(header, PageHeader { epoch: 7, chain_len: 255, chain_next: 20 });
    let built = PageInfo::built(PageTier::Inner, PageKind::Data, &header, 5);
    assert_eq!(built.chain_len, 255);
    assert_eq!(PageHeader::chained(7, &built, 21).chain_len, 255);
    assert_eq!(PageHeader::base(), PageHeader { epoch: 0, chain_len: 1, chain_next: 0 });
}

#[test]
fn iterators_over_pages_seek() {
    let mut iter = PageIter::new(vec![version(b"a", 1), version(b"c", 3), version(b"c", 2)], 9);
    iter.seek(b"b");
    assert_eq!(iter.next, 1);
    iter.seek(b"d");
    assert_eq!(iter.next, 3);
    iter.seek(b"");
    assert_eq!(iter.next, 0);
    let mut iter = InnerPageIter::new(vec![child(b"a", 1), child(b"c", 2)]);
    assert!(iter.seek(b"a"));
    assert_eq!(iter.next(), Some(child(b"a", 1)));
    assert!(!iter.seek(b"b"));
    assert_eq!(iter.next(), Some(child(b"c", 2)));
    assert_eq!(iter.next(), None);
    assert!(!iter.seek(b"d"));
}

fn text(entry: Option<(Vec<u8>, Vec<u8>)>) -> Option<(String, Vec<u8>)> {
    entry.map(|(key, value)| (String::from_utf8(key).expect("a word"), value))
}

#[test]
fn entries_are_what_a_reader_sees_of_a_page() {
    let items = vec![
        version(b"a", 9),
        version(b"a", 5),
        version(b"a", 1),
        (Key::new(b"b".to_vec(), 4), Value::Delete),
        version(b"b", 2),
        version(b"c", 8),
        (Key::new(b"d".to_vec(), 8), Value::Delete),
        version(b"d", 7),
        version(b"e", 3),
    ];
    let mut iter = PageIter::new(items, 7);
    // The newest version that the reader may see.
    assert_eq!(text(iter.next_entry()), Some(("a".to_string(), vec![5])));
    assert_eq!(iter.next, 3);
    // A deleted key and one that is written later are passed over.
    assert_eq!(text(iter.next_entry()), Some(("d".to_string(), vec![7])));
    assert_eq!(iter.next, 8);
    assert_eq!(text(iter.next_entry()), Some(("e".to_string(), vec![3])));
    assert_eq!(iter.next, 9);
    assert_eq!(iter.next_entry(), None);
    assert_eq!(iter.next, 9);
    assert_eq!(iter.max_lsn, 7);
    assert_eq!(iter.items.len(), 9);
    // From a key on.
    iter.seek(b"c");
    assert_eq!(text(iter.next_entry()), Some(("d".to_string(), vec![7])));
    iter.next = 20;
    assert_eq!(iter.next_entry(), None);
    assert_eq!(iter.next, 20);
    assert_eq!(PageIter::new(Vec::new(), 7).next_entry(), None);
    let late = vec![version(b"a", 9), version(b"b", 8)];
    let mut iter = PageIter::new(late, 7);
    assert_eq!(iter.next_entry(), None);
    assert_eq!(iter.next, 2);
}

#[test]
fn of_two_versions_with_one_number_the_first_is_an_entry() {
    let newer = (Key::new(b"a".to_vec(), 7), Value::Put(b"newer".to_vec()));
    let older = (Key::new(b"a".to_vec(), 7), Value::Put(b"older".to_vec()));
    let mut iter = PageIter::new(merge_pages(vec![vec![newer], vec![older]]), 7);
    assert_eq!(iter.next_entry(), Some((b"a".to_vec(), b"newer".to_vec())));
    assert_eq!(iter.next_entry(), None);
}

#[test]
fn a_newer_version_in_an_older_page_wins_a_merge() {
    let merged = merge_pages(vec![vec![version(b"a", 3)], vec![version(b"a", 5)]]);
    assert_eq!(positions(&merged), vec![(b"a".to_vec(), 5), (b"a".to_vec(), 3)]);
    assert_eq!(positions(&drop_old_versions(merged, 5)), vec![(b"a".to_vec(), 5)]);
}

fn info_of(tier: PageTier, chain_len: u8, chain_next: u64, size: usize) -> PageInfo {
    PageInfo { tier, kind: PageKind::Data, epoch: 0, chain_len, chain_next, size }
}

#[test]
fn pages_are_split_beyond_the_page_size() {
    let tree = Tree::new(Options { page_size: 101, page_chain_length: 5 });
    let txn = tree.begin();
    assert!(!txn.should_split_page(&info_of(PageTier::Leaf, 1, 0, 101)));
    assert!(txn.should_split_page(&info_of(PageTier::Leaf, 1, 0, 102)));
    assert!(!txn.should_split_page(&info_of(PageTier::Leaf, 2, 7, 102)));
    assert!(!txn.should_split_page(&info_of(PageTier::Inner, 1, 0, 50)));
    assert!(txn.should_split_page(&info_of(PageTier::Inner, 1, 0, 51)));
}

#[test]
fn chains_are_consolidated_beyond_the_chain_length() {
    let tree = Tree::new(Options { page_size: 101, page_chain_length: 5 });
    let txn = tree.begin();
    assert!(!txn.should_consolidate_page(&info_of(PageTier::Leaf, 5, 1, 0)));
    assert!(txn.should_consolidate_page(&info_of(PageTier::Leaf, 6, 1, 0)));
    assert!(!txn.should_consolidate_page(&info_of(PageTier::Inner, 2, 1, 0)));
    assert!(txn.should_consolidate_page(&info_of(PageTier::Inner, 3, 1, 0)));
    let tree = Tree::new(Options { page_size: 101, page_chain_length: 0 });
    let txn = tree.begin();
    assert!(!txn.should_consolidate_page(&info_of(PageTier::Leaf, 1, 1, 0)));
    assert!(txn.should_consolidate_page(&info_of(PageTier::Leaf, 2, 1, 0)));
    assert!(!txn.should_consolidate_page(&info_of(PageTier::Inner, 1, 1, 0)));
}

#[test]
fn the_safe_sequence_number_never_goes_back() {
    let mut tree = Tree::new(Options { page_size: 101, page_chain_length: 5 });
    assert_eq!(tree.safe_lsn(), 0);
    tree.set_safe_lsn(7);
    assert_eq!(tree.safe_lsn(), 7);
    tree.set_safe_lsn(3);
    assert_eq!(tree.safe_lsn(), 7);
    tree.set_safe_lsn(7);
    assert_eq!(tree.safe_lsn(), 7);
    tree.set_safe_lsn(u64::MAX);
    assert_eq!(tree.begin().tree_safe_lsn(), u64::MAX);
}
