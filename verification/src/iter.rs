//! Iterating over the leaf pages of a tree.

use crate::bytes::bytes_lt;
use crate::bytes::{bytes_copy, bytes_less, bytes_same};
use crate::consolidate::Collected;
use crate::lookup::{first_version, has_split_delta, shown, split_delta};
use crate::lookup::{is_split_delta, split_delta_from_page};
use crate::merge::{drop_dead_children, limit_items, merge_pages};
use crate::merge::{limit_view, limited, live_children, merged};
use crate::note::Note;
use crate::page::{Index, Key, Page, PageKind, PageTier, PageView, SortedPageKey, Value, ROOT_ID};
use crate::search::FindLeafOp;
use crate::search::{is_at_root, FindLeafTurn};
use crate::tree::Options;
use crate::tree::{ReadOptions, TreeTxn};
use crate::turn::{Action, CacheOption, Error, Event, Halt, Next, Turn};
use std::time::Duration;
use vstd::prelude::*;

verus! {

/// The number of items at the start whose keys come before the target.
pub open spec fn count_before<K: SortedPageKey, V>(items: Seq<(K, V)>, target: Seq<u8>) -> nat
    decreases items.len(),
{
    if items.len() == 0 || !bytes_lt(items[0].0.position().0, target) {
        0
    } else {
        1 + count_before(items.drop_first(), target)
    }
}

fn position_of<K: SortedPageKey, V>(items: &Vec<(K, V)>, target: &[u8]) -> (n: usize)
    ensures
        n == count_before(items@, target@),
        n <= items@.len(),
{
    let mut n: usize = 0;
    assert(items@.skip(0) =~= items@);
    while n < items.len() && bytes_less(items[n].0.as_raw(), target)
        invariant
            n <= items@.len(),
            count_before(items@, target@) == n + count_before(items@.skip(n as int), target@),
        decreases items@.len() - n,
    {
        assert(items@.skip(n as int).drop_first() =~= items@.skip(n + 1));
        n = n + 1;
    }
    n
}

/// The versions of keys in a leaf page, from a position on, for a reader that does not see
/// writes after `max_lsn`.
#[derive(Debug)]
pub struct PageIter {
    pub items: Vec<(Key, Value)>,
    pub next: usize,
    pub max_lsn: u64,
}

/// How many of the items at the front are versions of the key.
pub open spec fn run_len(items: Seq<(Key, Value)>, raw: Seq<u8>) -> nat
    decreases items.len(),
{
    if items.len() == 0 || items[0].0.raw@ != raw {
        0
    } else {
        1 + run_len(items.drop_first(), raw)
    }
}

pub proof fn lemma_run_len_bound(items: Seq<(Key, Value)>, raw: Seq<u8>)
    ensures
        run_len(items, raw) <= items.len(),
    decreases items.len(),
{
    if items.len() > 0 {
        lemma_run_len_bound(items.drop_first(), raw);
    }
}

/// What the versions at the front hold of their key for a reader, if anything.
pub open spec fn front_value(items: Seq<(Key, Value)>, lsn: u64) -> Option<Seq<u8>> {
    let raw = items[0].0.raw@;
    shown(items.take(run_len(items, raw) as int), raw, lsn)
}

/// The keys that hold something for a reader, with what they hold, where the versions of
/// each key stand together, newest first.
pub open spec fn entries(items: Seq<(Key, Value)>, lsn: u64) -> Seq<(Seq<u8>, Seq<u8>)>
    decreases items.len(),
{
    if items.len() == 0 {
        Seq::empty()
    } else {
        proof {
            lemma_run_len_bound(items, items[0].0.raw@);
        }
        let raw = items[0].0.raw@;
        let rest = entries(items.skip(run_len(items, raw) as int), lsn);
        match front_value(items, lsn) {
            Some(value) => seq![(raw, value)] + rest,
            None => rest,
        }
    }
}

/// How many items there are up to the last version of the first key that holds something for
/// a reader.
pub open spec fn entry_end(items: Seq<(Key, Value)>, lsn: u64) -> nat
    decreases items.len(),
{
    if items.len() == 0 {
        0
    } else {
        proof {
            lemma_run_len_bound(items, items[0].0.raw@);
        }
        let n = run_len(items, items[0].0.raw@);
        if front_value(items, lsn) is Some {
            n
        } else {
            n + entry_end(items.skip(n as int), lsn)
        }
    }
}

impl PageIter {
    /// The items that have not been passed yet.
    pub open spec fn rest(self) -> Seq<(Key, Value)> {
        if self.next <= self.items@.len() {
            self.items@.skip(self.next as int)
        } else {
            Seq::empty()
        }
    }

    /// What is left for a reader at `max_lsn`.
    pub open spec fn entries(self) -> Seq<(Seq<u8>, Seq<u8>)> {
        entries(self.rest(), self.max_lsn)
    }

    pub fn new(items: Vec<(Key, Value)>, max_lsn: u64) -> (r: Self)
        ensures
            r == (PageIter { items, next: 0, max_lsn }),
    {
        PageIter { items, next: 0, max_lsn }
    }

    /// Positions the iterator at the first item whose key is not before the target.
    pub fn seek(&mut self, target: &[u8])
        ensures
            *final(self) == (PageIter { next: final(self).next, ..*old(self) }),
            final(self).next == count_before(old(self).items@, target@),
    {
        self.next = position_of(&self.items, target);
    }

    /// Passes over the versions of the key at the front. Returns the place of the one that a
    /// reader at `max_lsn` gets, if there is one.
    fn pass_key(&mut self) -> (found: Option<usize>)
        requires
            old(self).next < old(self).items@.len(),
        ensures
            *final(self) == (PageIter { next: final(self).next, ..*old(self) }),
            ({
                let rest = old(self).rest();
                let raw = rest[0].0.raw@;
                let n = run_len(rest, raw);
                &&& final(self).next == old(self).next + n
                &&& n > 0
                &&& n <= rest.len()
                &&& match found {
                    Some(i) => i < old(self).items@.len() && first_version(
                        rest.take(n as int),
                        raw,
                        old(self).max_lsn,
                    ) == Some(old(self).items@[i as int]),
                    None => first_version(rest.take(n as int), raw, old(self).max_lsn) is None,
                }
            }),
    {
        let start: usize = self.next;
        let ghost rest = self.rest();
        let ghost raw = rest[0].0.raw@;
        let mut found: Option<usize> = None;
        let mut i: usize = start;
        assert(rest.take(0) =~= Seq::<(Key, Value)>::empty());
        assert(rest.skip(0) =~= rest);
        while i < self.items.len() && bytes_same(
            self.items[i].0.raw.as_slice(),
            self.items[start].0.raw.as_slice(),
        )
            invariant
                *self == *old(self),
                start == self.next,
                start <= i <= self.items@.len(),
                start < self.items@.len(),
                rest == self.rest(),
                rest == self.items@.skip(start as int),
                raw == rest[0].0.raw@,
                run_len(rest, raw) == (i - start) + run_len(rest.skip(i - start), raw),
                match found {
                    Some(k) => k < self.items@.len() && first_version(
                        rest.take(i - start),
                        raw,
                        self.max_lsn,
                    ) == Some(self.items@[k as int]),
                    None => first_version(rest.take(i - start), raw, self.max_lsn) is None,
                },
            decreases self.items@.len() - i,
        {
            let ghost n = i - start;
            proof {
                assert(rest.take(n + 1).drop_last() =~= rest.take(n));
                assert(rest.take(n + 1).last() == self.items@[i as int]);
                assert(rest.skip(n).drop_first() =~= rest.skip(n + 1));
                assert(rest.skip(n)[0] == self.items@[i as int]);
            }
            if found.is_none() && self.items[i].0.lsn <= self.max_lsn {
                found = Some(i);
            }
            i += 1;
        }
        proof {
            lemma_run_len_bound(rest, raw);
            if i < self.items@.len() {
                assert(rest.skip(i - start)[0] == self.items@[i as int]);
            }
        }
        self.next = i;
        found
    }

    /// The next key that holds something for a reader at `max_lsn`, and what it holds.
    /// Deletions are passed over, and so are versions that are newer than `max_lsn`.
    pub fn next_entry(&mut self) -> (r: Option<(Vec<u8>, Vec<u8>)>)
        ensures
            *final(self) == (PageIter { next: final(self).next, ..*old(self) }),
            final(self).next == old(self).next + entry_end(old(self).rest(), old(self).max_lsn),
            match r {
                Some((key, value)) => {
                    &&& old(self).entries().len() > 0
                    &&& old(self).entries()[0] == (key@, value@)
                    &&& final(self).entries() == old(self).entries().drop_first()
                },
                None => old(self).entries().len() == 0 && final(self).entries().len() == 0,
            },
    {
        while self.next < self.items.len()
            invariant
                *self == (PageIter { next: self.next, ..*old(self) }),
                self.entries() == old(self).entries(),
                self.next + entry_end(self.rest(), self.max_lsn) == old(self).next + entry_end(
                    old(self).rest(),
                    old(self).max_lsn,
                ),
            decreases self.items@.len() - self.next,
        {
            let start: usize = self.next;
            let ghost rest = self.rest();
            let found = self.pass_key();
            proof {
                let n = run_len(rest, rest[0].0.raw@);
                assert(self.rest() =~= rest.skip(n as int));
            }
            if let Some(i) = found {
                if let Value::Put(value) = &self.items[i].1 {
                    let key = bytes_copy(self.items[start].0.raw.as_slice());
                    let value = bytes_copy(value.as_slice());
                    assert(front_value(rest, self.max_lsn) == Some(value@));
                    assert((seq![(key@, value@)] + self.entries()).drop_first()
                        =~= self.entries());
                    return Some((key, value));
                }
            }
            assert(front_value(rest, self.max_lsn) is None);
        }
        assert(self.rest() =~= Seq::<(Key, Value)>::empty());
        None
    }
}

/// The children of an inner page, from a position on.
#[derive(Debug)]
pub struct InnerPageIter {
    pub items: Vec<(Vec<u8>, Index)>,
    pub next: usize,
}

impl InnerPageIter {
    pub fn new(items: Vec<(Vec<u8>, Index)>) -> (r: Self)
        ensures
            r == (InnerPageIter { items, next: 0 }),
    {
        InnerPageIter { items, next: 0 }
    }

    /// There is a next child.
    pub open spec fn has_next(self) -> bool {
        self.next < self.items@.len()
    }

    /// The iterator after the next child, if there is one.
    pub open spec fn advanced(self) -> InnerPageIter {
        InnerPageIter {
            items: self.items,
            next: if self.has_next() {
                (self.next + 1) as usize
            } else {
                self.next
            },
        }
    }

    /// Positions the iterator at the first child that does not begin before the target.
    /// Returns true if it begins at the target.
    pub fn seek(&mut self, target: &[u8]) -> (found: bool)
        ensures
            final(self).items == old(self).items,
            final(self).next == count_before(old(self).items@, target@),
            found == (final(self).has_next() && final(self).items@[final(self).next as int].0@
                == target@),
    {
        self.next = position_of(&self.items, target);
        self.next < self.items.len() && bytes_same(self.items[self.next].0.as_slice(), target)
    }

    /// Returns the next child.
    pub fn next(&mut self) -> (r: Option<(Vec<u8>, Index)>)
        ensures
            *final(self) == old(self).advanced(),
            match r {
                Some((start, index)) => {
                    &&& old(self).has_next()
                    &&& start@ == old(self).items@[old(self).next as int].0@
                    &&& index == old(self).items@[old(self).next as int].1
                    &&& final(self).next == old(self).next + 1
                },
                None => !old(self).has_next(),
            },
    {
        if self.next >= self.items.len() {
            return None;
        }
        let start = bytes_copy(self.items[self.next].0.as_slice());
        let index = self.items[self.next].1;
        self.next = self.next + 1;
        Some((start, index))
    }
}

/// The contents of the pages of a chain, newest first, and the end of the range of keys
/// that are left after splits.
#[derive(Debug)]
pub struct Gather {
    pub pages: Collected,
    pub range_limit: Option<Vec<u8>>,
}

impl Gather {
    pub open spec fn is_new(self, tier: PageTier) -> bool {
        self.pages.empty_for(tier) && self.range_limit is None
    }

    /// Why the page cannot be gathered, if so.
    pub open spec fn objection(self, page: Page) -> Option<Halt> {
        match page.info.kind {
            PageKind::Data => if !self.pages.takes(page.items) {
                Some(Halt::TierMismatch)
            } else {
                None
            },
            PageKind::Split => if self.range_limit is None && !has_split_delta(page) {
                Some(Halt::SplitDeltaMissing)
            } else {
                None
            },
        }
    }

    /// One more page. The split key that is met first is the smallest.
    pub open spec fn with_page(self, page: Page, more: Gather) -> bool {
        match page.info.kind {
            PageKind::Data => {
                &&& self.pages.extended(page.items, more.pages)
                &&& more.range_limit == self.range_limit
            },
            PageKind::Split => {
                &&& more.pages == self.pages
                &&& match self.range_limit {
                    Some(_) => more.range_limit == self.range_limit,
                    None => limit_view(more.range_limit) == Some(split_delta(page).0),
                }
            },
        }
    }

    pub fn new(tier: PageTier) -> (r: Self)
        ensures
            r.is_new(tier),
    {
        Gather { pages: Collected::new(tier), range_limit: None }
    }

    /// Gathers one more page.
    pub fn visit(self, page: Page) -> (r: Result<Gather, Halt>)
        ensures
            match r {
                Ok(more) => self.objection(page) is None && self.with_page(page, more),
                Err(halt) => self.objection(page) == Some(halt),
            },
    {
        match page.info.kind {
            PageKind::Data => match self.pages.add_page(page.items) {
                Ok(pages) => Ok(Gather { pages, range_limit: self.range_limit }),
                Err(_) => Err(Halt::TierMismatch),
            },
            PageKind::Split => match self.range_limit {
                Some(limit) => Ok(Gather { pages: self.pages, range_limit: Some(limit) }),
                None => {
                    if !is_split_delta(&page) {
                        return Err(Halt::SplitDeltaMissing);
                    }
                    let (split_key, _) = split_delta_from_page(&page);
                    Ok(Gather { pages: self.pages, range_limit: Some(split_key) })
                },
            },
        }
    }

    /// The versions of keys in the chain of a leaf page.
    pub open spec fn is_leaf_items(self, items: Seq<(Key, Value)>) -> bool {
        self.pages matches Collected::Values(v) && items == limited(
            merged(v@),
            limit_view(self.range_limit),
        )
    }

    /// The children in the chain of an inner page.
    pub open spec fn is_children(self, items: Seq<(Vec<u8>, Index)>) -> bool {
        self.pages matches Collected::Indexes(v) && items == live_children(
            limited(merged(v@), limit_view(self.range_limit)),
        )
    }

    /// Merges the pages of a leaf chain.
    pub fn into_leaf_items(self) -> (r: Option<Vec<(Key, Value)>>)
        ensures
            match r {
                Some(items) => self.is_leaf_items(items@),
                None => self.pages is Indexes,
            },
    {
        match self.pages {
            Collected::Values(v) => Some(limit_items(merge_pages(v), &self.range_limit)),
            Collected::Indexes(_) => None,
        }
    }

    /// Merges the pages of an inner chain.
    pub fn into_children(self) -> (r: Option<Vec<(Vec<u8>, Index)>>)
        ensures
            match r {
                Some(items) => self.is_children(items@),
                None => self.pages is Values,
            },
    {
        match self.pages {
            Collected::Indexes(v) => Some(
                drop_dead_children(limit_items(merge_pages(v), &self.range_limit)),
            ),
            Collected::Values(_) => None,
        }
    }
}

/// An iterator over leaf pages in a tree.
#[derive(Debug)]
pub struct TreeIter {
    pub options: ReadOptions,
    /// The children that are left of the inner page that was met last.
    pub inner_iter: Option<InnerPageIter>,
    /// Where to search once no child is left.
    pub inner_next: Option<Vec<u8>>,
}

impl TreeIter {
    /// An iterator that starts with the first leaf page.
    pub fn new(options: ReadOptions) -> (r: Self)
        ensures
            r.options == options,
            r.inner_iter is None,
            r.inner_next matches Some(next) && next@ == Seq::<u8>::empty(),
    {
        let first: Vec<u8> = Vec::new();
        TreeIter { options, inner_iter: None, inner_next: Some(first) }
    }
}

/// How far the search for the next leaf page has come.
#[derive(Debug)]
pub enum NextPageStage {
    /// The address of the next child is being looked up, then its header read.
    Addr { start: Vec<u8>, index: Index, inner_next: Option<Vec<u8>> },
    Info { start: Vec<u8>, index: Index, inner_next: Option<Vec<u8>>, addr: u64 },
    /// The chain of the next child is being read.
    Leaf { gather: Gather, inner_next: Option<Vec<u8>> },
    /// The leaf page for the target is being searched for.
    Find { search: FindLeafOp, target: Vec<u8> },
    /// The chain of the leaf page for the target is being read.
    SeekLeaf { gather: Gather, target: Vec<u8>, parent: Option<PageView> },
    /// The chain of its parent is being read.
    SeekParent { gather: Gather, target: Vec<u8>, end: Option<Vec<u8>>, leaf: PageIter },
}

/// A step of an iterator to the next leaf page.
#[derive(Debug)]
pub struct NextPageOp {
    pub iter: TreeIter,
    pub stage: NextPageStage,
}

/// The iterator, and the leaf page that it came to.
pub type NextPage = (TreeIter, Result<Option<PageIter>, Error>);

pub type NextPageTurn = Turn<NextPageOp, NextPage>;

pub type NextPageNext = Next<NextPageOp, NextPage>;

impl TreeIter {
    /// The iterator searches for the leaf page of the next key, or is at its end.
    pub open spec fn goes_to(
        self,
        before: Seq<Note>,
        inner_next: Option<Vec<u8>>,
        turn: NextPageTurn,
    ) -> bool {
        &&& turn.notes@ =~= before
        &&& match inner_next {
            Some(next) => {
                &&& turn.next matches Next::Run(op, action)
                &&& op.stage matches NextPageStage::Find { search, target }
                &&& is_at_root(search, next@)
                &&& target == next
                &&& op.iter == self
                &&& action == Action::PageAddr(ROOT_ID)
            },
            None => turn.next == NextPageNext::Done(
                (TreeIter { inner_iter: None, ..self }, Ok(None)),
            ),
        }
    }

    /// The iterator with nothing to search for.
    pub open spec fn without_next(self) -> TreeIter {
        TreeIter { inner_next: None, ..self }
    }

    /// How the step to the next page starts.
    pub open spec fn next_page_starts(self, turn: NextPageTurn) -> bool {
        match self.inner_iter {
            Some(children) if children.has_next() => {
                let child = children.items@[children.next as int];
                &&& turn.next matches Next::Run(op, _)
                &&& op.stage matches NextPageStage::Addr { start, index, inner_next }
                &&& start@ == child.0@
                &&& index == child.1
                &&& inner_next == self.inner_next
                &&& turn.asks(
                    NextPageOp {
                        iter: TreeIter {
                            inner_iter: Some(children.advanced()),
                            ..self.without_next()
                        },
                        stage: op.stage,
                    },
                    Action::PageAddr(child.1.id),
                )
            },
            _ => self.without_next().goes_to(Seq::empty(), self.inner_next, turn),
        }
    }

    fn go_to(self, before: Vec<Note>, inner_next: Option<Vec<u8>>) -> (turn: NextPageTurn)
        ensures
            self.goes_to(before@, inner_next, turn),
    {
        match inner_next {
            Some(target) => {
                let search = FindLeafOp::start(bytes_copy(target.as_slice()));
                let next = match search.next {
                    Next::Run(search, action) => Next::Run(
                        NextPageOp { iter: self, stage: NextPageStage::Find { search, target } },
                        action,
                    ),
                    Next::Done(_) => Next::Halt(Halt::UnexpectedEvent),
                    Next::Halt(halt) => Next::Halt(halt),
                };
                Turn { notes: before, next }
            },
            None => {
                let iter = TreeIter {
                    options: self.options,
                    inner_iter: None,
                    inner_next: self.inner_next,
                };
                Turn { notes: before, next: Next::Done((iter, Ok(None))) }
            },
        }
    }

    /// Starts to step to the next leaf page.
    pub fn next_page(self) -> (turn: NextPageTurn)
        ensures
            self.next_page_starts(turn),
    {
        let options = self.options;
        let inner_next = self.inner_next;
        match self.inner_iter {
            Some(children) => {
                let mut children = children;
                match children.next() {
                    Some((start, index)) => {
                        let iter = TreeIter {
                            options,
                            inner_iter: Some(children),
                            inner_next: None,
                        };
                        Turn::ask(
                            NextPageOp {
                                iter,
                                stage: NextPageStage::Addr { start, index, inner_next },
                            },
                            Action::PageAddr(index.id),
                        )
                    },
                    None => {
                        let iter = TreeIter {
                            options,
                            inner_iter: Some(children),
                            inner_next: None,
                        };
                        iter.go_to(Vec::new(), inner_next)
                    },
                }
            },
            None => {
                let iter = TreeIter { options, inner_iter: None, inner_next: None };
                iter.go_to(Vec::new(), inner_next)
            },
        }
    }
}

/// The end of the range for which the page was found.
pub open spec fn range_end(view: PageView) -> Option<Seq<u8>> {
    match view.range {
        Some(range) => limit_view(range.end),
        None => None,
    }
}

impl NextPageOp {
    pub open spec fn to(self, stage: NextPageStage) -> NextPageOp {
        NextPageOp { stage, ..self }
    }

    /// The iterator comes to the leaf page of the next child.
    pub open spec fn leaf_ends(
        self,
        before: Seq<Note>,
        gather: Gather,
        inner_next: Option<Vec<u8>>,
        turn: NextPageTurn,
    ) -> bool {
        &&& turn.notes@ =~= before
        &&& if gather.pages is Values {
            &&& turn.next matches Next::Done((iter, Ok(Some(leaf))))
            &&& gather.is_leaf_items(leaf.items@)
            &&& leaf.next == 0
            &&& leaf.max_lsn == self.iter.options.max_lsn
            &&& iter == (TreeIter { inner_next, ..self.iter })
        } else {
            turn.next == NextPageNext::Halt(Halt::TierMismatch)
        }
    }

    /// The leaf page for the target has been read. Its siblings are read next, where it
    /// has a parent.
    pub open spec fn seek_leaf_ends(
        self,
        before: Seq<Note>,
        gather: Gather,
        target: Vec<u8>,
        parent: Option<PageView>,
        turn: NextPageTurn,
    ) -> bool {
        if gather.pages is Indexes {
            &&& turn.notes@ =~= before
            &&& turn.next == NextPageNext::Halt(Halt::TierMismatch)
        } else {
            exists|leaf: PageIter| #[trigger]
                gather.is_leaf_items(leaf.items@) && {
                    &&& leaf.next == count_before(leaf.items@, target@)
                    &&& leaf.max_lsn == self.iter.options.max_lsn
                    &&& match parent {
                        None => {
                            &&& turn.notes@ =~= before
                            &&& turn.next == NextPageNext::Done(
                                (
                                    TreeIter { inner_iter: None, inner_next: None, ..self.iter },
                                    Ok(Some(leaf)),
                                ),
                            )
                        },
                        Some(parent) => if parent.at.addr == 0 {
                            exists|empty: Gather, end: Option<Vec<u8>>|
                                #![trigger empty.is_new(PageTier::Inner), limit_view(end)]
                                empty.is_new(PageTier::Inner) && limit_view(end) == range_end(
                                    parent,
                                ) && self.seek_parent_ends(
                                    before,
                                    empty,
                                    target,
                                    end,
                                    leaf,
                                    turn,
                                )
                        } else {
                            &&& turn.notes@ =~= before
                            &&& turn.next matches Next::Run(op, action)
                            &&& op.stage matches NextPageStage::SeekParent {
                                gather: children,
                                target: t,
                                end,
                                leaf: l,
                            }
                            &&& children.is_new(PageTier::Inner)
                            &&& t == target
                            &&& limit_view(end) == range_end(parent)
                            &&& l == leaf
                            &&& op.iter == self.iter
                            &&& action == Action::ReadPage(parent.at.addr, CacheOption::Default)
                        },
                    }
                }
        }
    }

    /// The siblings have been read: the ones that begin after the target are left.
    pub open spec fn seek_parent_ends(
        self,
        before: Seq<Note>,
        gather: Gather,
        target: Vec<u8>,
        end: Option<Vec<u8>>,
        leaf: PageIter,
        turn: NextPageTurn,
    ) -> bool {
        &&& turn.notes@ =~= before
        &&& if gather.pages is Indexes {
            &&& turn.next matches Next::Done((iter, Ok(Some(found))))
            &&& found == leaf
            &&& iter.options == self.iter.options
            &&& iter.inner_next == end
            &&& iter.inner_iter matches Some(children)
            &&& gather.is_children(children.items@)
            &&& ({
                let n = count_before(children.items@, target@);
                let at_target = n < children.items@.len() && children.items@[n as int].0@
                    == target@;
                children.next == if at_target {
                    n + 1
                } else {
                    n
                }
            })
        } else {
            turn.next == NextPageNext::Halt(Halt::TierMismatch)
        }
    }

    /// The search for the leaf page goes on or has ended.
    pub open spec fn goes_on_with_search(
        self,
        target: Vec<u8>,
        search: FindLeafTurn,
        turn: NextPageTurn,
    ) -> bool {
        match search.next {
            Next::Run(op, action) => {
                &&& turn.notes@ == search.notes@
                &&& turn.next == NextPageNext::Run(
                    self.to(NextPageStage::Find { search: op, target }),
                    action,
                )
            },
            Next::Done(Ok((view, parent))) => if view.at.addr == 0 {
                exists|empty: Gather| #[trigger]
                    empty.is_new(PageTier::Leaf) && self.seek_leaf_ends(
                        search.notes@,
                        empty,
                        target,
                        parent,
                        turn,
                    )
            } else {
                &&& turn.notes@ == search.notes@
                &&& turn.next matches Next::Run(op, action)
                &&& op.stage matches NextPageStage::SeekLeaf { gather, target: t, parent: p }
                &&& gather.is_new(PageTier::Leaf)
                &&& t == target
                &&& p == parent
                &&& op.iter == self.iter
                &&& action == Action::ReadPage(view.at.addr, CacheOption::Default)
            },
            Next::Done(Err(e)) => turn.ends(search.notes@, (self.iter, Err(e))),
            Next::Halt(halt) => {
                &&& turn.notes@ == search.notes@
                &&& turn.next == NextPageNext::Halt(halt)
            },
        }
    }

    /// How the step goes on after an event.
    pub open spec fn steps_to(
        self,
        options: Options,
        safe_lsn: u64,
        now: Duration,
        event: Event,
        turn: NextPageTurn,
    ) -> bool {
        match (self.stage, event) {
            (
                NextPageStage::Addr { start, index, inner_next },
                Event::Addr(addr),
            ) => turn.asks(
                self.to(NextPageStage::Info { start, index, inner_next, addr }),
                Action::ReadPageInfo(addr),
            ),
            // If the page epoch has changed, we need to restart from this page.
            (
                NextPageStage::Info { start, index, inner_next, addr },
                Event::Info(page),
            ) => if page.epoch != index.epoch {
                self.iter.goes_to(Seq::empty(), Some(start), turn)
            } else if addr == 0 {
                exists|empty: Gather| #[trigger]
                    empty.is_new(PageTier::Leaf) && self.leaf_ends(
                        Seq::empty(),
                        empty,
                        inner_next,
                        turn,
                    )
            } else {
                &&& turn.next matches Next::Run(op, _)
                &&& op.stage matches NextPageStage::Leaf { gather, inner_next: next }
                &&& gather.is_new(PageTier::Leaf)
                &&& next == inner_next
                &&& turn.asks(self.to(op.stage), Action::ReadPage(addr, CacheOption::Default))
            },
            (NextPageStage::Leaf { gather, inner_next }, Event::Page(page)) => match gather.objection(
            page) {
                Some(halt) => turn.halts(halt),
                None => exists|more: Gather| #[trigger]
                    gather.with_page(page, more) && if page.info.chain_next == 0 {
                        self.leaf_ends(Seq::empty(), more, inner_next, turn)
                    } else {
                        turn.asks(
                            self.to(NextPageStage::Leaf { gather: more, inner_next }),
                            Action::ReadPage(page.info.chain_next, CacheOption::Default),
                        )
                    },
            },
            (NextPageStage::Find { search: op, target }, _) => exists|search: FindLeafTurn| #[trigger]
                op.steps_to(options, safe_lsn, now, event, search) && self.goes_on_with_search(
                    target,
                    search,
                    turn,
                ),
            (
                NextPageStage::SeekLeaf { gather, target, parent },
                Event::Page(page),
            ) => match gather.objection(page) {
                Some(halt) => turn.halts(halt),
                None => exists|more: Gather| #[trigger]
                    gather.with_page(page, more) && if page.info.chain_next == 0 {
                        self.seek_leaf_ends(Seq::empty(), more, target, parent, turn)
                    } else {
                        turn.asks(
                            self.to(NextPageStage::SeekLeaf { gather: more, target, parent }),
                            Action::ReadPage(page.info.chain_next, CacheOption::Default),
                        )
                    },
            },
            (
                NextPageStage::SeekParent { gather, target, end, leaf },
                Event::Page(page),
            ) => match gather.objection(page) {
                Some(halt) => turn.halts(halt),
                None => exists|more: Gather| #[trigger]
                    gather.with_page(page, more) && if page.info.chain_next == 0 {
                        self.seek_parent_ends(Seq::empty(), more, target, end, leaf, turn)
                    } else {
                        turn.asks(
                            self.to(NextPageStage::SeekParent { gather: more, target, end, leaf }),
                            Action::ReadPage(page.info.chain_next, CacheOption::Default),
                        )
                    },
            },
            (NextPageStage::Info { .. }, Event::Failed(e)) => turn.ends(
                Seq::empty(),
                (self.iter, Err(e)),
            ),
            (NextPageStage::Leaf { .. }, Event::Failed(e)) => turn.ends(
                Seq::empty(),
                (self.iter, Err(e)),
            ),
            (NextPageStage::SeekLeaf { .. }, Event::Failed(e)) => turn.ends(
                Seq::empty(),
                (self.iter, Err(e)),
            ),
            (NextPageStage::SeekParent { .. }, Event::Failed(e)) => turn.ends(
                Seq::empty(),
                (self.iter, Err(e)),
            ),
            _ => turn.halts(Halt::UnexpectedEvent),
        }
    }

    fn end_leaf(
        iter: TreeIter,
        before: Vec<Note>,
        gather: Gather,
        inner_next: Option<Vec<u8>>,
    ) -> (turn: NextPageTurn)
        ensures
            forall|op: NextPageOp|
                op.iter == iter ==> #[trigger] op.leaf_ends(before@, gather, inner_next, turn),
    {
        let max_lsn: u64 = iter.options.max_lsn;
        match gather.into_leaf_items() {
            Some(items) => {
                let leaf = PageIter::new(items, max_lsn);
                let iter = TreeIter {
                    options: iter.options,
                    inner_iter: iter.inner_iter,
                    inner_next,
                };
                Turn { notes: before, next: Next::Done((iter, Ok(Some(leaf)))) }
            },
            None => Turn { notes: before, next: Next::Halt(Halt::TierMismatch) },
        }
    }

    fn end_seek_parent(
        iter: TreeIter,
        before: Vec<Note>,
        gather: Gather,
        target: Vec<u8>,
        end: Option<Vec<u8>>,
        leaf: PageIter,
    ) -> (turn: NextPageTurn)
        ensures
            forall|op: NextPageOp|
                op.iter == iter ==> #[trigger] op.seek_parent_ends(
                    before@,
                    gather,
                    target,
                    end,
                    leaf,
                    turn,
                ),
    {
        match gather.into_children() {
            Some(items) => {
                let mut children = InnerPageIter::new(items);
                if children.seek(target.as_slice()) {
                    let _ = children.next();
                }
                proof {
                    lemma_count_before_bound(children.items@, target@);
                }
                let iter = TreeIter {
                    options: iter.options,
                    inner_iter: Some(children),
                    inner_next: end,
                };
                Turn { notes: before, next: Next::Done((iter, Ok(Some(leaf)))) }
            },
            None => Turn { notes: before, next: Next::Halt(Halt::TierMismatch) },
        }
    }

    fn end_seek_leaf(
        iter: TreeIter,
        before: Vec<Note>,
        gather: Gather,
        target: Vec<u8>,
        parent: Option<PageView>,
    ) -> (turn: NextPageTurn)
        ensures
            forall|op: NextPageOp|
                op.iter == iter ==> #[trigger] op.seek_leaf_ends(
                    before@,
                    gather,
                    target,
                    parent,
                    turn,
                ),
    {
        let max_lsn: u64 = iter.options.max_lsn;
        match gather.into_leaf_items() {
            Some(items) => {
                let mut leaf = PageIter::new(items, max_lsn);
                leaf.seek(target.as_slice());
                assert(gather.is_leaf_items(leaf.items@));
                match parent {
                    None => {
                        let iter = TreeIter {
                            options: iter.options,
                            inner_iter: None,
                            inner_next: None,
                        };
                        Turn { notes: before, next: Next::Done((iter, Ok(Some(leaf)))) }
                    },
                    Some(parent) => {
                        let end = match parent.range {
                            Some(range) => range.end,
                            None => None,
                        };
                        let children = Gather::new(PageTier::Inner);
                        assert(children.is_new(PageTier::Inner));
                        assert(limit_view(end) == range_end(parent));
                        if parent.at.addr == 0 {
                            return NextPageOp::end_seek_parent(
                                iter,
                                before,
                                children,
                                target,
                                end,
                                leaf,
                            );
                        }
                        Turn {
                            notes: before,
                            next: Next::Run(
                                NextPageOp {
                                    iter,
                                    stage: NextPageStage::SeekParent {
                                        gather: children,
                                        target,
                                        end,
                                        leaf,
                                    },
                                },
                                Action::ReadPage(parent.at.addr, CacheOption::Default),
                            ),
                        }
                    },
                }
            },
            None => Turn { notes: before, next: Next::Halt(Halt::TierMismatch) },
        }
    }

    fn go_on_with_search(iter: TreeIter, target: Vec<u8>, search: FindLeafTurn) -> (turn:
        NextPageTurn)
        ensures
            forall|op: NextPageOp|
                op.iter == iter ==> #[trigger] op.goes_on_with_search(target, search, turn),
    {
        let notes = search.notes;
        match search.next {
            Next::Run(search, action) => Turn {
                notes,
                next: Next::Run(
                    NextPageOp { iter, stage: NextPageStage::Find { search, target } },
                    action,
                ),
            },
            Next::Done(Ok((view, parent))) => {
                let gather = Gather::new(PageTier::Leaf);
                assert(gather.is_new(PageTier::Leaf));
                if view.at.addr == 0 {
                    return NextPageOp::end_seek_leaf(iter, notes, gather, target, parent);
                }
                Turn {
                    notes,
                    next: Next::Run(
                        NextPageOp {
                            iter,
                            stage: NextPageStage::SeekLeaf { gather, target, parent },
                        },
                        Action::ReadPage(view.at.addr, CacheOption::Default),
                    ),
                }
            },
            Next::Done(Err(e)) => Turn { notes, next: Next::Done((iter, Err(e))) },
            Next::Halt(halt) => Turn { notes, next: Next::Halt(halt) },
        }
    }

    /// Goes on after an event.
    pub fn step(self, txn: &TreeTxn<'_>, now: Duration, event: Event) -> (turn: NextPageTurn)
        requires
            event.wf(),
        ensures
            self.steps_to(txn.options(), txn.safe_lsn(), now, event, turn),
    {
        let iter = self.iter;
        match (self.stage, event) {
            (NextPageStage::Addr { start, index, inner_next }, Event::Addr(addr)) => Turn::ask(
                NextPageOp { iter, stage: NextPageStage::Info { start, index, inner_next, addr } },
                Action::ReadPageInfo(addr),
            ),
            (NextPageStage::Info { start, index, inner_next, addr }, Event::Info(page)) => {
                if page.epoch != index.epoch {
                    return iter.go_to(Vec::new(), Some(start));
                }
                let gather = Gather::new(PageTier::Leaf);
                assert(gather.is_new(PageTier::Leaf));
                if addr == 0 {
                    return NextPageOp::end_leaf(iter, Vec::new(), gather, inner_next);
                }
                Turn::ask(
                    NextPageOp { iter, stage: NextPageStage::Leaf { gather, inner_next } },
                    Action::ReadPage(addr, CacheOption::Default),
                )
            },
            (NextPageStage::Leaf { gather, inner_next }, Event::Page(page)) => {
                let next: u64 = page.info.chain_next;
                match gather.visit(page) {
                    Err(halt) => Turn::halt(halt),
                    Ok(more) => {
                        assert(gather.with_page(page, more));
                        if next == 0 {
                            return NextPageOp::end_leaf(iter, Vec::new(), more, inner_next);
                        }
                        Turn::ask(
                            NextPageOp {
                                iter,
                                stage: NextPageStage::Leaf { gather: more, inner_next },
                            },
                            Action::ReadPage(next, CacheOption::Default),
                        )
                    },
                }
            },
            (NextPageStage::Find { search: op, target }, event) => {
                let search = op.step(txn, now, event);
                assert(op.steps_to(txn.options(), txn.safe_lsn(), now, event, search));
                NextPageOp::go_on_with_search(iter, target, search)
            },
            (NextPageStage::SeekLeaf { gather, target, parent }, Event::Page(page)) => {
                let next: u64 = page.info.chain_next;
                match gather.visit(page) {
                    Err(halt) => Turn::halt(halt),
                    Ok(more) => {
                        assert(gather.with_page(page, more));
                        if next == 0 {
                            return NextPageOp::end_seek_leaf(
                                iter,
                                Vec::new(),
                                more,
                                target,
                                parent,
                            );
                        }
                        Turn::ask(
                            NextPageOp {
                                iter,
                                stage: NextPageStage::SeekLeaf { gather: more, target, parent },
                            },
                            Action::ReadPage(next, CacheOption::Default),
                        )
                    },
                }
            },
            (NextPageStage::SeekParent { gather, target, end, leaf }, Event::Page(page)) => {
                let next: u64 = page.info.chain_next;
                match gather.visit(page) {
                    Err(halt) => Turn::halt(halt),
                    Ok(more) => {
                        assert(gather.with_page(page, more));
                        if next == 0 {
                            return NextPageOp::end_seek_parent(
                                iter,
                                Vec::new(),
                                more,
                                target,
                                end,
                                leaf,
                            );
                        }
                        Turn::ask(
                            NextPageOp {
                                iter,
                                stage: NextPageStage::SeekParent {
                                    gather: more,
                                    target,
                                    end,
                                    leaf,
                                },
                            },
                            Action::ReadPage(next, CacheOption::Default),
                        )
                    },
                }
            },
            (NextPageStage::Info { .. }, Event::Failed(e)) => Turn::end((iter, Err(e))),
            (NextPageStage::Leaf { .. }, Event::Failed(e)) => Turn::end((iter, Err(e))),
            (NextPageStage::SeekLeaf { .. }, Event::Failed(e)) => Turn::end((iter, Err(e))),
            (NextPageStage::SeekParent { .. }, Event::Failed(e)) => Turn::end((iter, Err(e))),
            _ => Turn::halt(Halt::UnexpectedEvent),
        }
    }
}

/// No more items come before a target than there are.
pub proof fn lemma_count_before_bound<K: SortedPageKey, V>(items: Seq<(K, V)>, target: Seq<u8>)
    ensures
        count_before(items, target) <= items.len(),
    decreases items.len(),
{
    if items.len() > 0 {
        lemma_count_before_bound(items.drop_first(), target);
    }
}

} // verus!
