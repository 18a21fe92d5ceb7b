//! How an iterator steps from one leaf page to the next.

use crate::bytes::bytes_lt;
use crate::consolidate::Collected;
use crate::iter::{count_before, Gather, InnerPageIter, NextPage, NextPageOp, NextPageStage,
    NextPageTurn, PageIter, TreeIter};
use crate::laws::courses::is_new_search;
use crate::laws::finding::law_seeking_passes_over_what_is_before;
use crate::laws::renewing::adds;
use crate::merge::{limited, live_children, merged};
use crate::page::{Index, Items, Key, Page, PageInfo, PageKind, PageTier, SortedPageKey, Value};
use crate::search::FindLeafTurn;
use crate::tree::{Options, ReadOptions};
use crate::turn::{Action, CacheOption, Event, Halt, Next};
use std::time::Duration;
use vstd::prelude::*;

verus! {

/// An iterator with children left takes the next of them: it looks up its address, and
/// remembers where to search once no child is left.
pub proof fn law_iterator_takes_the_next_child(
    iter: TreeIter,
    children: InnerPageIter,
    turn: NextPageTurn,
)
    requires
        iter.inner_iter == Some(children),
        children.next < children.items@.len(),
        iter.next_page_starts(turn),
    ensures
        turn.notes@.len() == 0,
        turn.next matches Next::Run(op, action) && {
            let child = children.items@[children.next as int];
            &&& action == Action::PageAddr(child.1.id)
            &&& op.stage matches NextPageStage::Addr { start, index, inner_next }
            &&& start@ == child.0@
            &&& index == child.1
            &&& inner_next == iter.inner_next
            &&& op.iter.options == iter.options
            &&& op.iter.inner_next is None
            &&& op.iter.inner_iter matches Some(rest)
            &&& rest.items == children.items
            &&& rest.next == children.next + 1
        },
{
    assert(children.items.len() == children.items@.len());
}

/// The turn searches for the leaf page of the key from the root on.
pub open spec fn searches_for(
    turn: NextPageTurn,
    options: ReadOptions,
    key: Seq<u8>,
) -> bool {
    &&& turn.notes@.len() == 0
    &&& turn.next matches Next::Run(op, action)
    &&& op.iter.options == options
    &&& op.stage matches NextPageStage::Find { search, target }
    &&& target@ == key
    &&& is_new_search(search, action, key)
}

/// An iterator without children searches for the leaf page where the last one ended; where
/// there is none it is at its end.
pub proof fn law_iterator_goes_on_behind_its_children(iter: TreeIter, turn: NextPageTurn)
    requires
        iter.inner_iter matches Some(children) ==> children.next >= children.items@.len(),
        iter.next_page_starts(turn),
    ensures
        match iter.inner_next {
            Some(next) => searches_for(turn, iter.options, next@),
            None => turn.notes@.len() == 0 && turn.next == Next::<NextPageOp, NextPage>::Done(
                (
                    TreeIter { options: iter.options, inner_iter: None, inner_next: None },
                    Ok(None),
                ),
            ),
        },
{
}

/// The iterator reads the child only if it still has the epoch by which it was referred to;
/// else it has been split, and the iterator searches again for where the child begins.
pub proof fn law_iterator_reads_a_child_of_its_epoch(
    op: NextPageOp,
    options: Options,
    safe_lsn: u64,
    now: Duration,
    event: Event,
    turn: NextPageTurn,
)
    requires
        op.steps_to(options, safe_lsn, now, event, turn),
    ensures
        op.stage is Addr ==> (event matches Event::Addr(addr) ==> {
            &&& turn.notes@.len() == 0
            &&& turn.next == Next::<NextPageOp, NextPage>::Run(
                NextPageOp {
                    iter: op.iter,
                    stage: NextPageStage::Info {
                        start: op.stage->Addr_start,
                        index: op.stage->Addr_index,
                        inner_next: op.stage->Addr_inner_next,
                        addr,
                    },
                },
                Action::ReadPageInfo(addr),
            )
        }),
        op.stage is Info ==> (event matches Event::Info(page) ==> if page.epoch
            != op.stage->Info_index.epoch {
            searches_for(turn, op.iter.options, op.stage->Info_start@)
        } else {
            op.stage->addr != 0 ==> {
                &&& turn.notes@.len() == 0
                &&& turn.next matches Next::Run(next, action)
                &&& action == Action::ReadPage(op.stage->addr, CacheOption::Default)
                &&& next.iter == op.iter
                &&& next.stage matches NextPageStage::Leaf { gather, inner_next }
                &&& gather.pages matches Collected::Values(v)
                &&& v@.len() == 0
                &&& gather.range_limit is None
                &&& inner_next == op.stage->Info_inner_next
            }
        }),
        (op.stage is Info || op.stage is Leaf || op.stage is SeekLeaf || op.stage is SeekParent)
            ==> (event matches Event::Failed(e) ==> turn.notes@.len() == 0 && turn.next == Next::<
            NextPageOp,
            NextPage,
        >::Done((op.iter, Err(e)))),
{
}

/// One more page of a chain has been gathered: its contents stand behind the others, and the
/// split key that is met first is the end of what is left.
pub open spec fn gathers(before: Gather, page: Page, after: Gather) -> bool {
    match page.info.kind {
        PageKind::Data => {
            &&& adds(before.pages, page.items, after.pages)
            &&& after.range_limit == before.range_limit
        },
        PageKind::Split => {
            &&& after.pages == before.pages
            &&& match before.range_limit {
                Some(_) => after.range_limit == before.range_limit,
                None => after.range_limit matches Some(end) && page.items matches Items::Indexes(v)
                    && end@ == v@[0].0@,
            }
        },
    }
}

/// The page can be gathered: it is of the tier of the others, or announces a split.
pub open spec fn can_be_gathered(before: Gather, page: Page) -> bool {
    match page.info.kind {
        PageKind::Data => before.pages is Values <==> page.items is Values,
        PageKind::Split => before.range_limit is Some || (page.items matches Items::Indexes(v)
            && v@.len() > 0),
    }
}

/// What an operation has gathered.
pub open spec fn gathered(stage: NextPageStage) -> Gather {
    match stage {
        NextPageStage::Leaf { gather, .. } => gather,
        NextPageStage::SeekLeaf { gather, .. } => gather,
        NextPageStage::SeekParent { gather, .. } => gather,
        _ => arbitrary(),
    }
}

/// The stages agree in everything but what was gathered.
pub open spec fn agree_but_for_pages(a: NextPageStage, b: NextPageStage) -> bool {
    match (a, b) {
        (
            NextPageStage::Leaf { inner_next: x, .. },
            NextPageStage::Leaf { inner_next: y, .. },
        ) => x == y,
        (
            NextPageStage::SeekLeaf { target: t, parent: p, .. },
            NextPageStage::SeekLeaf { target: u, parent: q, .. },
        ) => t == u && p == q,
        (
            NextPageStage::SeekParent { target: t, end: e, leaf: l, .. },
            NextPageStage::SeekParent { target: u, end: f, leaf: m, .. },
        ) => t == u && e == f && l == m,
        _ => false,
    }
}

/// An iterator gathers the pages of a chain one after the other, and refuses those that do not
/// belong there.
pub proof fn law_iterator_gathers_the_chain(
    op: NextPageOp,
    options: Options,
    safe_lsn: u64,
    now: Duration,
    page: Page,
    turn: NextPageTurn,
)
    requires
        op.stage is Leaf || op.stage is SeekLeaf || op.stage is SeekParent,
        op.steps_to(options, safe_lsn, now, Event::Page(page), turn),
    ensures
        turn.notes@.len() == 0,
        !can_be_gathered(gathered(op.stage), page) ==> turn.next == Next::<
            NextPageOp,
            NextPage,
        >::Halt(
            match page.info.kind {
                PageKind::Data => Halt::TierMismatch,
                PageKind::Split => Halt::SplitDeltaMissing,
            },
        ),
        can_be_gathered(gathered(op.stage), page) && page.info.chain_next != 0 ==> {
            &&& turn.next matches Next::Run(next, action)
            &&& action == Action::ReadPage(page.info.chain_next, CacheOption::Default)
            &&& next.iter == op.iter
            &&& agree_but_for_pages(op.stage, next.stage)
            &&& gathers(gathered(op.stage), page, gathered(next.stage))
        },
{
}

/// The versions that were gathered: merged, without those at the limit or beyond.
pub open spec fn are_versions(gather: Gather, items: Seq<(Key, Value)>) -> bool {
    gather.pages matches Collected::Values(v) && items == limited(
        merged(v@),
        match gather.range_limit {
            Some(end) => Some(end@),
            None => None,
        },
    )
}

/// The children that were gathered: merged, without those at the limit or beyond, and without
/// those that were replaced.
pub open spec fn are_children(gather: Gather, items: Seq<(Vec<u8>, Index)>) -> bool {
    gather.pages matches Collected::Indexes(v) && items == live_children(
        limited(
            merged(v@),
            match gather.range_limit {
                Some(end) => Some(end@),
                None => None,
            },
        ),
    )
}

/// The iterator hands out the whole leaf page of a child, and keeps its other children.
pub proof fn law_iterator_hands_out_the_child(
    op: NextPageOp,
    options: Options,
    safe_lsn: u64,
    now: Duration,
    page: Page,
    turn: NextPageTurn,
)
    requires
        op.stage is Leaf,
        op.stage->Leaf_gather.pages is Values,
        can_be_gathered(op.stage->Leaf_gather, page),
        page.info.chain_next == 0,
        op.steps_to(options, safe_lsn, now, Event::Page(page), turn),
    ensures
        turn.next matches Next::Done((iter, Ok(Some(leaf)))) && {
            &&& exists|gather: Gather| #[trigger]
                gathers(op.stage->Leaf_gather, page, gather) && are_versions(gather, leaf.items@)
            &&& leaf.next == 0
            &&& leaf.max_lsn == op.iter.options.max_lsn
            &&& iter.options == op.iter.options
            &&& iter.inner_iter == op.iter.inner_iter
            &&& iter.inner_next == op.stage->Leaf_inner_next
        },
{
    let more = choose|more: Gather| #[trigger]
        op.stage->Leaf_gather.with_page(page, more) && (turn.next matches Next::Done(
            (_, Ok(Some(leaf))),
        ) && are_versions(more, leaf.items@));
    assert(gathers(op.stage->Leaf_gather, page, more));
}

/// The place is that of the first item whose key is not before the target.
pub open spec fn is_place_of<K: SortedPageKey, V>(
    items: Seq<(K, V)>,
    target: Seq<u8>,
    place: int,
) -> bool {
    &&& 0 <= place <= items.len()
    &&& forall|i: int|
        0 <= i < place ==> bytes_lt((#[trigger] items[i]).0.position().0, target)
    &&& place < items.len() ==> !bytes_lt(items[place].0.position().0, target)
}

/// The leaf page that was searched for is handed out from the target on. Without a parent it
/// is the only one; else the siblings are read from the parent, and where the parent ends is
/// remembered.
pub proof fn law_iterator_finds_the_target(
    op: NextPageOp,
    options: Options,
    safe_lsn: u64,
    now: Duration,
    page: Page,
    turn: NextPageTurn,
)
    requires
        op.stage is SeekLeaf,
        op.stage->SeekLeaf_gather.pages is Values,
        can_be_gathered(op.stage->SeekLeaf_gather, page),
        page.info.chain_next == 0,
        op.stage->parent matches Some(parent) ==> parent.at.addr != 0,
        op.steps_to(options, safe_lsn, now, Event::Page(page), turn),
    ensures
        exists|leaf: PageIter|
            #![trigger leaf.items]
            {
                &&& exists|gather: Gather| #[trigger]
                    gathers(op.stage->SeekLeaf_gather, page, gather) && are_versions(
                        gather,
                        leaf.items@,
                    )
                &&& is_place_of(leaf.items@, op.stage->SeekLeaf_target@, leaf.next as int)
                &&& leaf.max_lsn == op.iter.options.max_lsn
                &&& match op.stage->parent {
                    None => turn.next == Next::<NextPageOp, NextPage>::Done(
                        (
                            TreeIter {
                                options: op.iter.options,
                                inner_iter: None,
                                inner_next: None,
                            },
                            Ok(Some(leaf)),
                        ),
                    ),
                    Some(parent) => {
                        &&& turn.next matches Next::Run(next, action)
                        &&& action == Action::ReadPage(parent.at.addr, CacheOption::Default)
                        &&& next.iter == op.iter
                        &&& next.stage matches NextPageStage::SeekParent {
                            gather,
                            target,
                            end,
                            leaf: l,
                        }
                        &&& gather.pages matches Collected::Indexes(v)
                        &&& v@.len() == 0
                        &&& gather.range_limit is None
                        &&& target == op.stage->SeekLeaf_target
                        &&& l == leaf
                        &&& match (end, parent.range) {
                            (Some(e), Some(range)) => range.end matches Some(f) && e@ == f@,
                            (None, Some(range)) => range.end is None,
                            (None, None) => true,
                            (Some(_), None) => false,
                        }
                    },
                }
            },
{
    let before = op.stage->SeekLeaf_gather;
    let target = op.stage->SeekLeaf_target;
    let parent = op.stage->parent;
    let more = choose|more: Gather| #[trigger]
        before.with_page(page, more) && op.seek_leaf_ends(
            Seq::empty(),
            more,
            target,
            parent,
            turn,
        );
    assert(gathers(before, page, more));
    let leaf = match turn.next {
        Next::Done((_, Ok(Some(leaf)))) => leaf,
        Next::Run(next, _) => next.stage->leaf,
        _ => arbitrary(),
    };
    assert(more.is_leaf_items(leaf.items@));
    assert(are_versions(more, leaf.items@));
    law_seeking_passes_over_what_is_before(leaf.items@, target@);
    assert(is_place_of(leaf.items@, target@, leaf.next as int));
}

/// Once the siblings have been read, those are left that begin after the target; the page that
/// was found for the target is handed out.
pub proof fn law_iterator_keeps_the_siblings_behind(
    op: NextPageOp,
    options: Options,
    safe_lsn: u64,
    now: Duration,
    page: Page,
    turn: NextPageTurn,
)
    requires
        op.stage is SeekParent,
        op.stage->SeekParent_gather.pages is Indexes,
        can_be_gathered(op.stage->SeekParent_gather, page),
        page.info.chain_next == 0,
        op.steps_to(options, safe_lsn, now, Event::Page(page), turn),
    ensures
        turn.next matches Next::Done((iter, Ok(Some(leaf)))) && {
            let target = op.stage->SeekParent_target@;
            &&& leaf == op.stage->leaf
            &&& iter.options == op.iter.options
            &&& iter.inner_next == op.stage->end
            &&& iter.inner_iter matches Some(children)
            &&& exists|gather: Gather| #[trigger]
                gathers(op.stage->SeekParent_gather, page, gather) && are_children(
                    gather,
                    children.items@,
                )
            &&& exists|place: int| #[trigger]
                is_place_of(children.items@, target, place) && children.next == if place
                    < children.items@.len() && children.items@[place].0@ == target {
                    place + 1
                } else {
                    place
                }
        },
{
    let before = op.stage->SeekParent_gather;
    let target = op.stage->SeekParent_target;
    let more = choose|more: Gather| #[trigger]
        before.with_page(page, more) && op.seek_parent_ends(
            Seq::empty(),
            more,
            target,
            op.stage->end,
            op.stage->leaf,
            turn,
        );
    assert(gathers(before, page, more));
    match turn.next {
        Next::Done((iter, Ok(Some(leaf)))) => {
            let children = iter.inner_iter->0;
            assert(are_children(more, children.items@));
            law_seeking_passes_over_what_is_before(children.items@, target@);
            assert(is_place_of(
                children.items@,
                target@,
                count_before(children.items@, target@) as int,
            ));
        },
        _ => {},
    }
}

/// A search of the iterator goes on as a search does. When it has ended, the chain of the leaf
/// page is read, and the parent is remembered; a failure ends the step.
pub proof fn law_iterator_follows_its_search(
    op: NextPageOp,
    options: Options,
    safe_lsn: u64,
    now: Duration,
    event: Event,
    turn: NextPageTurn,
)
    requires
        op.stage is Find,
        op.steps_to(options, safe_lsn, now, event, turn),
    ensures
        exists|search: FindLeafTurn| #[trigger]
            op.stage->search.steps_to(options, safe_lsn, now, event, search) && turn.notes@
                == search.notes@ && match search.next {
                Next::Run(going, asked) => turn.next == Next::<NextPageOp, NextPage>::Run(
                    NextPageOp {
                        iter: op.iter,
                        stage: NextPageStage::Find {
                            search: going,
                            target: op.stage->Find_target,
                        },
                    },
                    asked,
                ),
                Next::Done(Ok((view, found))) => view.at.addr != 0 ==> {
                    &&& turn.next matches Next::Run(next, action)
                    &&& action == Action::ReadPage(view.at.addr, CacheOption::Default)
                    &&& next.iter == op.iter
                    &&& next.stage matches NextPageStage::SeekLeaf { gather, target, parent }
                    &&& gather.pages matches Collected::Values(v)
                    &&& v@.len() == 0
                    &&& gather.range_limit is None
                    &&& target == op.stage->Find_target
                    &&& parent == found
                },
                Next::Done(Err(e)) => turn.next == Next::<NextPageOp, NextPage>::Done(
                    (op.iter, Err(e)),
                ),
                Next::Halt(halt) => turn.next == Next::<NextPageOp, NextPage>::Halt(halt),
            },
{
}

/// Where there is no page to read, an iterator hands out a leaf page without versions, and goes
/// on as it does with any other.
pub proof fn law_iterator_hands_out_an_empty_page(
    op: NextPageOp,
    options: Options,
    safe_lsn: u64,
    now: Duration,
    page: PageInfo,
    turn: NextPageTurn,
)
    requires
        op.stage is Info,
        op.stage->addr == 0,
        page.epoch == op.stage->Info_index.epoch,
        op.steps_to(options, safe_lsn, now, Event::Info(page), turn),
    ensures
        turn.notes@.len() == 0,
        turn.next matches Next::Done((iter, Ok(Some(leaf)))) && {
            &&& leaf.items@.len() == 0
            &&& leaf.next == 0
            &&& leaf.max_lsn == op.iter.options.max_lsn
            &&& iter.options == op.iter.options
            &&& iter.inner_iter == op.iter.inner_iter
            &&& iter.inner_next == op.stage->Info_inner_next
        },
{
    let empty = choose|empty: Gather| #[trigger]
        empty.is_new(PageTier::Leaf) && op.leaf_ends(
            Seq::empty(),
            empty,
            op.stage->Info_inner_next,
            turn,
        );
    assert(merged(empty.pages->Values_0@).len() == 0);
}

} // verus!
