//! Pages, their headers and their sorted contents.

use crate::bytes::{bytes_copy, bytes_less, bytes_same};
use crate::bytes::{bytes_le, bytes_lt, lemma_bytes_asymmetric, lemma_bytes_irreflexive,
    lemma_bytes_total, lemma_bytes_transitive};
use vstd::prelude::*;

verus! {

/// The id of the root page.
pub const ROOT_ID: u64 = 1;

/// The id that no page has.
pub const NAN_ID: u64 = 0;

/// The chain length of a page that stands alone.
pub const BASE_CHAIN_LEN: u8 = 1;

/// The level of a page in the tree.
#[derive(Clone, Copy, Debug, PartialEq, Eq, Structural)]
pub enum PageTier {
    Leaf,
    Inner,
}

impl PageTier {
    pub fn is_leaf(&self) -> (r: bool)
        ensures
            r == (*self is Leaf),
    {
        matches!(self, PageTier::Leaf)
    }

    pub fn is_inner(&self) -> (r: bool)
        ensures
            r == (*self is Inner),
    {
        matches!(self, PageTier::Inner)
    }
}

/// What a page holds: data, or the announcement that its page has been split.
#[derive(Clone, Copy, Debug, PartialEq, Eq, Structural)]
pub enum PageKind {
    Data,
    Split,
}

impl PageKind {
    pub fn is_data(&self) -> (r: bool)
        ensures
            r == (*self is Data),
    {
        matches!(self, PageKind::Data)
    }
}

/// A reference to a child page: its id, and the epoch that the page had when the
/// reference was made.
#[derive(Clone, Copy, Debug, PartialEq, Eq, Structural)]
pub struct Index {
    pub id: u64,
    pub epoch: u64,
}

impl Index {
    pub fn new(id: u64, epoch: u64) -> (r: Self)
        ensures
            r == (Index { id, epoch }),
    {
        Index { id, epoch }
    }
}

/// The reference from which every search starts.
pub open spec fn root_index() -> Index {
    Index { id: ROOT_ID, epoch: 0 }
}

/// The reference that marks the end of a range and leads nowhere.
pub open spec fn null_index() -> Index {
    Index { id: NAN_ID, epoch: 0 }
}

/// A key together with the sequence number of the write that it belongs to.
#[derive(Debug)]
pub struct Key {
    pub raw: Vec<u8>,
    pub lsn: u64,
}

impl Key {
    pub fn new(raw: Vec<u8>, lsn: u64) -> (r: Self)
        ensures
            r == (Key { raw, lsn }),
    {
        Key { raw, lsn }
    }

    /// The number of bytes of the key.
    pub fn len(&self) -> (n: usize)
        ensures
            n == self.raw@.len(),
    {
        self.raw.len()
    }

    /// Copies the key.
    pub fn copy(&self) -> (r: Key)
        ensures
            r.raw@ == self.raw@,
            r.lsn == self.lsn,
    {
        Key { raw: bytes_copy(self.raw.as_slice()), lsn: self.lsn }
    }
}

/// What a write stores for a key.
#[derive(Debug)]
pub enum Value {
    Put(Vec<u8>),
    Delete,
}

impl Value {
    /// The bytes that a reader of the value gets, if any.
    pub open spec fn content(self) -> Option<Seq<u8>> {
        match self {
            Value::Put(v) => Some(v@),
            Value::Delete => None,
        }
    }

    /// The number of bytes of the value.
    pub fn len(&self) -> (n: usize)
        ensures
            n == (match self.content() {
                Some(v) => v.len(),
                None => 0,
            }),
    {
        match self {
            Value::Put(v) => v.len(),
            Value::Delete => 0,
        }
    }

    /// Copies the value.
    pub fn copy(&self) -> (r: Value)
        ensures
            r.content() == self.content(),
    {
        match self {
            Value::Put(v) => Value::Put(bytes_copy(v.as_slice())),
            Value::Delete => Value::Delete,
        }
    }
}

/// Where a key stands in a page: its bytes, then its sequence number.
pub type Position = (Seq<u8>, u64);

/// Pages are ordered by the bytes of the keys; of one key the newest version comes
/// first.
pub open spec fn position_lt(a: Position, b: Position) -> bool {
    bytes_lt(a.0, b.0) || (a.0 == b.0 && a.1 > b.1)
}

pub proof fn lemma_position_transitive(a: Position, b: Position, c: Position)
    requires
        position_lt(a, b),
        position_lt(b, c),
    ensures
        position_lt(a, c),
{
    if bytes_lt(a.0, b.0) && bytes_lt(b.0, c.0) {
        lemma_bytes_transitive(a.0, b.0, c.0);
    }
}

pub proof fn lemma_position_total(a: Position, b: Position)
    ensures
        a == b || position_lt(a, b) || position_lt(b, a),
{
    lemma_bytes_total(a.0, b.0);
}

pub proof fn lemma_position_asymmetric(a: Position, b: Position)
    requires
        position_lt(a, b),
    ensures
        !position_lt(b, a),
        a != b,
{
    lemma_bytes_irreflexive(a.0);
    if bytes_lt(a.0, b.0) {
        lemma_bytes_asymmetric(a.0, b.0);
    }
    if bytes_lt(b.0, a.0) {
        lemma_bytes_asymmetric(b.0, a.0);
    }
}

/// A key by which the contents of a page are sorted.
pub trait SortedPageKey: Sized {
    spec fn position(&self) -> Position;

    /// The bytes of the key.
    fn as_raw(&self) -> (r: &[u8])
        ensures
            r@ == self.position().0,
    ;

    /// The sequence number of the key.
    fn version(&self) -> (r: u64)
        ensures
            r == self.position().1,
    ;
}

impl SortedPageKey for Key {
    open spec fn position(&self) -> Position {
        (self.raw@, self.lsn)
    }

    fn as_raw(&self) -> (r: &[u8]) {
        self.raw.as_slice()
    }

    fn version(&self) -> (r: u64) {
        self.lsn
    }
}

impl SortedPageKey for Vec<u8> {
    open spec fn position(&self) -> Position {
        (self@, 0)
    }

    fn as_raw(&self) -> (r: &[u8]) {
        self.as_slice()
    }

    fn version(&self) -> (r: u64) {
        0
    }
}

/// Tells whether `a` stands before the position of `raw` and `lsn`.
pub fn stands_before<K: SortedPageKey>(a: &K, raw: &[u8], lsn: u64) -> (r: bool)
    ensures
        r == position_lt(a.position(), (raw@, lsn)),
{
    bytes_less(a.as_raw(), raw) || (bytes_same(a.as_raw(), raw) && a.version() > lsn)
}

/// The keys stand in strictly ascending order.
pub open spec fn sorted<K: SortedPageKey, V>(items: Seq<(K, V)>) -> bool {
    forall|i: int, j: int|
        0 <= i < j < items.len() ==> position_lt(
            #[trigger] items[i].0.position(),
            #[trigger] items[j].0.position(),
        )
}

/// Tells whether the keys stand in strictly ascending order.
pub fn is_sorted<K: SortedPageKey, V>(items: &Vec<(K, V)>) -> (r: bool)
    ensures
        r == sorted(items@),
{
    let mut n: usize = 1;
    while n < items.len()
        invariant
            1 <= n,
            n <= items.len() || items.len() == 0,
            forall|i: int, j: int|
                0 <= i < j < n && j < items.len() ==> position_lt(
                    #[trigger] items@[i].0.position(),
                    #[trigger] items@[j].0.position(),
                ),
        decreases items.len() - n,
    {
        let next = &items[n].0;
        if !stands_before(&items[n - 1].0, next.as_raw(), next.version()) {
            assert(!position_lt(items@[n - 1].0.position(), items@[n as int].0.position()));
            return false;
        }
        assert forall|i: int, j: int| 0 <= i < j < n + 1 implies position_lt(
            #[trigger] items@[i].0.position(),
            #[trigger] items@[j].0.position(),
        ) by {
            if j == n && i < n - 1 {
                lemma_position_transitive(
                    items@[i].0.position(),
                    items@[n - 1].0.position(),
                    items@[j].0.position(),
                );
            }
        }
        n = n + 1;
    }
    true
}

/// The rank of a position: `Ok` with the index of the item that stands there, or else
/// `Err` with the number of items that stand before it.
pub fn rank<K: SortedPageKey, V>(items: &Vec<(K, V)>, raw: &[u8], lsn: u64) -> (r: Result<
    usize,
    usize,
>)
    requires
        sorted(items@),
    ensures
        match r {
            Ok(i) => i < items@.len() && items@[i as int].0.position() == (raw@, lsn),
            Err(i) => i <= items@.len() && forall|j: int|
                0 <= j < items@.len() ==> (#[trigger] items@[j]).0.position() != (raw@, lsn),
        },
        ({
            let i = match r {
                Ok(i) => i,
                Err(i) => i,
            };
            forall|j: int|
                0 <= j < items@.len() ==> (j < i <==> position_lt(
                    #[trigger] items@[j].0.position(),
                    (raw@, lsn),
                ))
        }),
{
    let mut lo: usize = 0;
    let mut hi: usize = items.len();
    let ghost target = (raw@, lsn);
    while lo < hi
        invariant
            sorted(items@),
            target == (raw@, lsn),
            lo <= hi <= items@.len(),
            forall|j: int| 0 <= j < lo ==> position_lt(#[trigger] items@[j].0.position(), target),
            forall|j: int|
                hi <= j < items@.len() ==> !position_lt(
                    #[trigger] items@[j].0.position(),
                    target,
                ),
        decreases hi - lo,
    {
        let mid: usize = lo + (hi - lo) / 2;
        if stands_before(&items[mid].0, raw, lsn) {
            assert forall|j: int| 0 <= j < mid + 1 implies position_lt(
                #[trigger] items@[j].0.position(),
                target,
            ) by {
                if j < mid {
                    lemma_position_transitive(
                        items@[j].0.position(),
                        items@[mid as int].0.position(),
                        target,
                    );
                }
            }
            lo = mid + 1;
        } else {
            assert forall|j: int| mid <= j < items@.len() implies !position_lt(
                #[trigger] items@[j].0.position(),
                target,
            ) by {
                if j > mid && position_lt(items@[j].0.position(), target) {
                    lemma_position_transitive(
                        items@[mid as int].0.position(),
                        items@[j].0.position(),
                        target,
                    );
                }
            }
            hi = mid;
        }
    }
    proof {
        lemma_position_asymmetric_all(target);
    }
    if lo < items.len() && bytes_same(items[lo].0.as_raw(), raw) && items[lo].0.version() == lsn {
        return Ok(lo);
    }
    assert forall|j: int| 0 <= j < items@.len() implies (#[trigger] items@[j]).0.position()
        != target by {
        if items@[j].0.position() == target {
            lemma_position_irreflexive(target);
            assert(j >= lo);
            if j > lo {
                assert(position_lt(items@[lo as int].0.position(), items@[j].0.position()));
            }
        }
    }
    Err(lo)
}

pub proof fn lemma_position_irreflexive(a: Position)
    ensures
        !position_lt(a, a),
{
    lemma_bytes_irreflexive(a.0);
}

proof fn lemma_position_asymmetric_all(a: Position)
    ensures
        forall|b: Position| position_lt(a, b) ==> !#[trigger] position_lt(b, a),
{
    assert forall|b: Position| position_lt(a, b) implies !#[trigger] position_lt(b, a) by {
        lemma_position_asymmetric(a, b);
    }
}

/// The header of a page and its size in bytes.
#[derive(Clone, Copy, Debug, PartialEq, Eq, Structural)]
pub struct PageInfo {
    pub tier: PageTier,
    pub kind: PageKind,
    pub epoch: u64,
    pub chain_len: u8,
    pub chain_next: u64,
    pub size: usize,
}

/// The part of a header that is set when a page is put in its place.
#[derive(Clone, Copy, Debug, PartialEq, Eq, Structural)]
pub struct PageHeader {
    pub epoch: u64,
    pub chain_len: u8,
    pub chain_next: u64,
}

/// The header of a page that stands alone: no epoch has passed and nothing follows.
pub open spec fn base_header() -> PageHeader {
    PageHeader { epoch: 0, chain_len: BASE_CHAIN_LEN, chain_next: 0 }
}

impl PageHeader {
    pub fn base() -> (r: Self)
        ensures
            r == base_header(),
    {
        PageHeader { epoch: 0, chain_len: BASE_CHAIN_LEN, chain_next: 0 }
    }
}

/// The header of a page of the given epoch that is put in front of the chain that
/// starts with `page` at `addr`.
pub open spec fn chained_header(epoch: u64, page: PageInfo, addr: u64) -> PageHeader {
    PageHeader {
        epoch,
        chain_len: if page.chain_len < u8::MAX {
            (page.chain_len + 1) as u8
        } else {
            u8::MAX
        },
        chain_next: addr,
    }
}

impl PageHeader {
    pub fn chained(epoch: u64, page: &PageInfo, addr: u64) -> (r: Self)
        ensures
            r == chained_header(epoch, *page, addr),
    {
        PageHeader { epoch, chain_len: page.chain_len.saturating_add(1), chain_next: addr }
    }
}

/// The contents of a page. Data pages of the leaf level hold versions of keys; every
/// other page holds references to child pages.
#[derive(Debug)]
pub enum Items {
    Values(Vec<(Key, Value)>),
    Indexes(Vec<(Vec<u8>, Index)>),
}

impl Items {
    pub open spec fn count(self) -> nat {
        match self {
            Items::Values(v) => v@.len(),
            Items::Indexes(v) => v@.len(),
        }
    }

    /// The bytes of the key at `i`.
    pub open spec fn raw(self, i: int) -> Seq<u8> {
        match self {
            Items::Values(v) => v@[i].0.raw@,
            Items::Indexes(v) => v@[i].0@,
        }
    }

    pub open spec fn sorted(self) -> bool {
        match self {
            Items::Values(v) => sorted(v@),
            Items::Indexes(v) => sorted(v@),
        }
    }

    /// The contents are of the sort that pages of this tier and kind hold.
    pub open spec fn fit(self, tier: PageTier, kind: PageKind) -> bool {
        (self is Values) == (tier is Leaf && kind is Data)
    }
}

/// A page as it was read from the store.
#[derive(Debug)]
pub struct Page {
    pub info: PageInfo,
    pub items: Items,
}

impl Page {
    /// The contents fit the header and stand in order.
    pub open spec fn wf(self) -> bool {
        self.items.fit(self.info.tier, self.info.kind) && self.items.sorted()
    }

    /// Tells whether the contents fit the header and stand in order.
    pub fn is_wf(&self) -> (r: bool)
        ensures
            r == self.wf(),
    {
        let data_leaf: bool = self.info.tier.is_leaf() && self.info.kind.is_data();
        match &self.items {
            Items::Values(v) => data_leaf && is_sorted(v),
            Items::Indexes(v) => !data_leaf && is_sorted(v),
        }
    }
}

/// A page that is to be built.
#[derive(Debug)]
pub struct Draft {
    pub tier: PageTier,
    pub kind: PageKind,
    pub items: Items,
}

/// The header and size of a page that was built from a draft of this tier and kind.
pub open spec fn built_info(
    tier: PageTier,
    kind: PageKind,
    header: PageHeader,
    size: usize,
) -> PageInfo {
    PageInfo {
        tier,
        kind,
        epoch: header.epoch,
        chain_len: header.chain_len,
        chain_next: header.chain_next,
        size,
    }
}

impl PageInfo {
    pub fn built(tier: PageTier, kind: PageKind, header: &PageHeader, size: usize) -> (r: Self)
        ensures
            r == built_info(tier, kind, *header, size),
    {
        PageInfo {
            tier,
            kind,
            epoch: header.epoch,
            chain_len: header.chain_len,
            chain_next: header.chain_next,
            size,
        }
    }
}

/// A page's id, the address at which the id led to, and the header found there.
#[derive(Clone, Copy, Debug, PartialEq, Eq, Structural)]
pub struct PageHandle {
    pub id: u64,
    pub addr: u64,
    pub page: PageInfo,
}

/// The keys from `start` on, up to `end` where there is one.
#[derive(Debug)]
pub struct Range {
    pub start: Vec<u8>,
    pub end: Option<Vec<u8>>,
}

/// A range over plain byte strings.
pub struct RangeView {
    pub start: Seq<u8>,
    pub end: Option<Seq<u8>>,
}

impl View for Range {
    type V = RangeView;

    open spec fn view(&self) -> RangeView {
        RangeView {
            start: self.start@,
            end: match self.end {
                Some(end) => Some(end@),
                None => None,
            },
        }
    }
}

impl RangeView {
    pub open spec fn contains(self, raw: Seq<u8>) -> bool {
        &&& bytes_le(self.start, raw)
        &&& self.end matches Some(end) ==> bytes_lt(raw, end)
    }
}

/// The range of the root page: all keys.
pub open spec fn root_range() -> RangeView {
    RangeView { start: Seq::empty(), end: None }
}

impl Range {
    pub fn root() -> (r: Self)
        ensures
            r@ == root_range(),
    {
        let r = Range { start: Vec::new(), end: None };
        assert(r.start@ =~= Seq::<u8>::empty());
        r
    }
}

/// A page that was found, and the range of keys that it was found for.
#[derive(Debug)]
pub struct PageView {
    pub at: PageHandle,
    pub range: Option<Range>,
}

} // verus!
