//! A step of an iterator to the next leaf page, from its start to its end, while the tree changes
//! under it.

use crate::iter::{Gather, NextPageNext, NextPageOp, NextPageStage, NextPageTurn, PageIter,
    TreeIter};
use crate::laws::arrival::{came_to, is_gathered, is_gathering, is_page_at, knows_siblings,
    lemma_gathering_goes_on, lemma_gathering_starts, lemma_page_is_handed_out,
    lemma_siblings_are_known, lemma_siblings_later};
use crate::laws::forest::{law_root_is_responsible_for_all_keys, lemma_visited, page_ok, visit};
use crate::laws::history::{can_grow, grown, Change};
use crate::laws::iteration::begins_at;
use crate::laws::pursuit::{is_leaf_at, is_on_its_way, is_referred, is_search_turn,
    law_search_keeps_on_its_way, lemma_search_begins};
use crate::laws::runs::{aims, answers, between, extends, lemma_extends_transitive,
    lemma_grown_before, lemma_grown_tree, lemma_growth_keeps_aim, Moment};
use crate::laws::store::is_chain;
use crate::merge::limit_view;
use crate::page::{Index, Page, PageTier, PageView, RangeView};
use crate::search::FindLeafTurn;
use crate::tree::ReadOptions;
use crate::turn::{Action, CacheOption, Event, Next};
use vstd::prelude::*;

verus! {

/// When the changes had been made, the id of the child led to the address.
pub open spec fn is_child_at(
    pages: Map<u64, Page>,
    root: Page,
    c: Seq<Change>,
    at: Seq<u8>,
    index: Index,
    range: RangeView,
    addr: u64,
) -> bool {
    let (f, height) = grown(root, c);
    &&& aims(f, height, at, 0, index, range)
    &&& is_chain(pages, addr, f.chains[index.id])
}

/// The chain is being gathered of the leaf page that was responsible for the key, with the
/// range, when the changes had been made.
pub open spec fn is_leaf_walk(
    pages: Map<u64, Page>,
    root: Page,
    c: Seq<Change>,
    at: Seq<u8>,
    range: RangeView,
    gather: Gather,
    action: Action,
    n: int,
) -> bool {
    let (f, height) = grown(root, c);
    &&& visit(f, height, at, 0).1 == range
    &&& is_gathering(pages, f.chains[visit(f, height, at, 0).0.id], gather, action, n)
}

/// The leaf page for the key has been found, and its chain is being gathered.
pub open spec fn is_sought(
    pages: Map<u64, Page>,
    root: Page,
    first: Seq<Change>,
    c: Seq<Change>,
    at: Seq<u8>,
    view: PageView,
    parent: Option<PageView>,
    gather: Gather,
    action: Action,
    n: int,
) -> bool {
    &&& is_leaf_at(pages, root, first, c, at, view, parent)
    &&& is_leaf_walk(pages, root, c, at, view.range->0@, gather, action, n)
}

/// The chain is being gathered of the parent that referred to the leaf page.
pub open spec fn is_parent_walk(
    pages: Map<u64, Page>,
    root: Page,
    c: Seq<Change>,
    at: Seq<u8>,
    parent: PageView,
    index: Index,
    range: RangeView,
    gather: Gather,
    action: Action,
    n: int,
) -> bool {
    &&& is_referred(pages, root, c, at, 0, parent, index, range)
    &&& is_gathering(pages, grown(root, c).0.chains[parent.at.id], gather, action, n)
}

/// When the changes had been made, the page was that of the leaf page that was responsible for
/// the key, and the range of that page ended where it says.
pub open spec fn is_arrived(
    root: Page,
    c: Seq<Change>,
    at: Seq<u8>,
    page: PageIter,
    end: Option<Seq<u8>>,
) -> bool {
    let (f, height) = grown(root, c);
    &&& is_page_at(root, c, at, page)
    &&& visit(f, height, at, 0).1.end == end
}

/// The page is that of the leaf page for the key at some point between the two.
pub open spec fn has_arrived(
    root: Page,
    first: Seq<Change>,
    last: Seq<Change>,
    at: Seq<u8>,
    page: PageIter,
    end: Option<Seq<u8>>,
) -> bool {
    exists|c: Seq<Change>| between(first, c, last) && #[trigger] is_arrived(root, c, at, page, end)
}

/// The children that are left begin where the page ends that is being read.
pub open spec fn has_children_left(
    root: Page,
    last: Seq<Change>,
    iter: TreeIter,
    inner_next: Option<Vec<u8>>,
) -> bool {
    let (f, height) = grown(root, last);
    knows_siblings(f, height, TreeIter { inner_next, ..iter })
}

/// The range from the key to where the children begin that are left.
pub open spec fn up_to_rest(
    at: Seq<u8>,
    iter: TreeIter,
    inner_next: Option<Vec<u8>>,
) -> RangeView {
    RangeView { start: at, end: came_to(TreeIter { inner_next, ..iter }) }
}

/// The step of an iterator that had come to the key is on its way, and asks for what it needs
/// next.
pub open spec fn is_advancing(
    pages: Map<u64, Page>,
    root: Page,
    first: Seq<Change>,
    last: Seq<Change>,
    at: Seq<u8>,
    op: NextPageOp,
    action: Action,
) -> bool {
    let (f, height) = grown(root, last);
    match op.stage {
        NextPageStage::Addr { start, index, inner_next } => {
            &&& start@ == at
            &&& action == Action::PageAddr(index.id)
            &&& has_children_left(root, last, op.iter, inner_next)
            &&& aims(f, height, at, 0, index, up_to_rest(at, op.iter, inner_next))
        },
        NextPageStage::Info { start, index, inner_next, addr } => {
            &&& start@ == at
            &&& action == Action::ReadPageInfo(addr)
            &&& has_children_left(root, last, op.iter, inner_next)
            &&& exists|c: Seq<Change>|
                between(first, c, last) && #[trigger] is_child_at(
                    pages,
                    root,
                    c,
                    at,
                    index,
                    up_to_rest(at, op.iter, inner_next),
                    addr,
                )
        },
        NextPageStage::Leaf { gather, inner_next } => {
            &&& has_children_left(root, last, op.iter, inner_next)
            &&& exists|c: Seq<Change>, n: int|
                between(first, c, last) && #[trigger] is_leaf_walk(
                    pages,
                    root,
                    c,
                    at,
                    up_to_rest(at, op.iter, inner_next),
                    gather,
                    action,
                    n,
                )
        },
        NextPageStage::Find { search, target } => {
            &&& target@ == at
            &&& search.key@ == at
            &&& is_on_its_way(pages, root, first, last, search, action)
        },
        NextPageStage::SeekLeaf { gather, target, parent } => {
            &&& target@ == at
            &&& exists|c: Seq<Change>, view: PageView, n: int|
                between(first, c, last) && #[trigger] is_sought(
                    pages,
                    root,
                    first,
                    c,
                    at,
                    view,
                    parent,
                    gather,
                    action,
                    n,
                )
        },
        NextPageStage::SeekParent { gather, target, end, leaf } => {
            &&& target@ == at
            &&& leaf.max_lsn == op.iter.options.max_lsn
            &&& exists|
                c: Seq<Change>,
                parent: PageView,
                index: Index,
                range: RangeView,
                n: int,
            |
                between(first, c, last) && #[trigger] is_parent_walk(
                    pages,
                    root,
                    c,
                    at,
                    parent,
                    index,
                    range,
                    gather,
                    action,
                    n,
                ) && limit_view(end) == parent.range->0@.end && has_arrived(
                    root,
                    first,
                    last,
                    at,
                    leaf,
                    range.end,
                )
        },
    }
}

/// What a turn of an iterator that had come to the key has come to.
pub open spec fn is_iter_turn(
    pages: Map<u64, Page>,
    root: Page,
    first: Seq<Change>,
    last: Seq<Change>,
    at: Seq<u8>,
    options: ReadOptions,
    turn: NextPageTurn,
) -> bool {
    match turn.next {
        Next::Run(op, action) => {
            &&& op.iter.options == options
            &&& is_advancing(pages, root, first, last, at, op, action)
        },
        Next::Done((iter, Ok(Some(page)))) => {
            &&& iter.options == options
            &&& page.max_lsn == options.max_lsn
            &&& knows_siblings(grown(root, last).0, grown(root, last).1, iter)
            &&& has_arrived(root, first, last, at, page, came_to(iter))
        },
        Next::Done((_, Ok(None))) => false,
        _ => true,
    }
}

/// Later changes do not matter to where the iterator has arrived.
proof fn lemma_arrived_later(
    root: Page,
    first: Seq<Change>,
    a: Seq<Change>,
    b: Seq<Change>,
    at: Seq<u8>,
    page: PageIter,
    end: Option<Seq<u8>>,
)
    requires
        has_arrived(root, first, a, at, page, end),
        extends(a, b),
    ensures
        has_arrived(root, first, b, at, page, end),
{
    let c = choose|c: Seq<Change>|
        between(first, c, a) && #[trigger] is_arrived(root, c, at, page, end);
    lemma_extends_transitive(c, a, b);
    assert(is_arrived(root, c, at, page, end));
}

/// An iterator that has a child left asks for its address; one that has none searches for the
/// leaf page from the root.
proof fn lemma_advance_begins(
    pages: Map<u64, Page>,
    root: Page,
    first: Seq<Change>,
    iter: TreeIter,
    at: Seq<u8>,
    turn: NextPageTurn,
)
    requires
        knows_siblings(grown(root, first).0, grown(root, first).1, iter),
        came_to(iter) == Some(at),
        iter.next_page_starts(turn),
    ensures
        is_iter_turn(pages, root, first, first, at, iter.options, turn),
{
    match turn.next {
        Next::Run(op, action) => match op.stage {
            NextPageStage::Addr { start, index, inner_next } => {
                let children = iter.inner_iter->0;
                let items = children.items@;
                assert(children.items.len() == items.len());
                let left = TreeIter { inner_next, ..op.iter };
                assert(left.inner_iter == Some(children.advanced()));
                assert(left.inner_next == iter.inner_next);
                let k = children.next as int;
                assert(items[k].0@ == at);
                assert(came_to(left) == begins_at(items, limit_view(iter.inner_next), k + 1));
            },
            NextPageStage::Find { search, target } => {
                lemma_search_begins(pages, root, first, first, search, at);
            },
            _ => {},
        },
        _ => {},
    }
}

/// A step that has looked up the address of the child is on its way.
proof fn lemma_child_is_known(
    pages: Map<u64, Page>,
    root: Page,
    first: Seq<Change>,
    c: Seq<Change>,
    last: Seq<Change>,
    at: Seq<u8>,
    op: NextPageOp,
)
    requires
        op.stage is Info,
        op.stage->Info_start@ == at,
        has_children_left(root, last, op.iter, op.stage->Info_inner_next),
        between(first, c, last),
        is_child_at(
            pages,
            root,
            c,
            at,
            op.stage->Info_index,
            up_to_rest(at, op.iter, op.stage->Info_inner_next),
            op.stage->addr,
        ),
    ensures
        is_advancing(
            pages,
            root,
            first,
            last,
            at,
            op,
            Action::ReadPageInfo(op.stage->addr),
        ),
{
}

proof fn lemma_child_lookup(
    pages: Map<u64, Page>,
    root: Page,
    first: Seq<Change>,
    before: Seq<Change>,
    at: Seq<u8>,
    op: NextPageOp,
    action: Action,
    moment: Moment,
    turn: NextPageTurn,
)
    requires
        can_grow(root, moment.changes),
        extends(first, moment.changes),
        extends(before, moment.changes),
        op.stage is Addr,
        is_advancing(pages, root, first, before, at, op, action),
        answers(pages, grown(root, moment.changes).0, action, moment.event),
        op.steps_to(moment.options, moment.safe_lsn, moment.now, moment.event, turn),
    ensures
        is_iter_turn(pages, root, first, moment.changes, at, op.iter.options, turn),
{
    let last = moment.changes;
    let index = op.stage->Addr_index;
    let inner_next = op.stage->Addr_inner_next;
    let range = up_to_rest(at, op.iter, inner_next);
    match moment.event {
        Event::Addr(addr) => {
            lemma_siblings_later(root, before, last, TreeIter { inner_next, ..op.iter });
            lemma_growth_keeps_aim(root, before, last, at, 0, index, range);
            assert(last =~= last.take(last.len() as int));
            assert(is_child_at(pages, root, last, at, index, range, addr));
            match turn.next {
                Next::Run(next, _) => {
                    lemma_child_is_known(pages, root, first, last, last, at, next);
                },
                _ => {},
            }
        },
        _ => {},
    }
}

proof fn lemma_child_header(
    pages: Map<u64, Page>,
    root: Page,
    first: Seq<Change>,
    before: Seq<Change>,
    at: Seq<u8>,
    op: NextPageOp,
    action: Action,
    moment: Moment,
    turn: NextPageTurn,
)
    requires
        can_grow(root, moment.changes),
        extends(first, moment.changes),
        extends(before, moment.changes),
        op.stage is Info,
        is_advancing(pages, root, first, before, at, op, action),
        answers(pages, grown(root, moment.changes).0, action, moment.event),
        op.steps_to(moment.options, moment.safe_lsn, moment.now, moment.event, turn),
    ensures
        is_iter_turn(pages, root, first, moment.changes, at, op.iter.options, turn),
{
    let last = moment.changes;
    let index = op.stage->Info_index;
    let inner_next = op.stage->Info_inner_next;
    let addr = op.stage->addr;
    let range = up_to_rest(at, op.iter, inner_next);
    let c = choose|c: Seq<Change>|
        between(first, c, before) && #[trigger] is_child_at(
            pages,
            root,
            c,
            at,
            index,
            range,
            addr,
        );
    let (f, height) = grown(root, c);
    let chain = f.chains[index.id];
    lemma_extends_transitive(c, before, last);
    lemma_grown_before(root, c, last);
    lemma_grown_tree(root, c);
    lemma_siblings_later(root, before, last, TreeIter { inner_next, ..op.iter });
    assert(page_ok(chain, f.places[index.id]));
    assert(pages[addr] == chain[0]);
    match turn.next {
        Next::Run(next, asked) => {
            if chain[0].info.epoch != index.epoch {
                lemma_search_begins(pages, root, first, last, next.stage->search, at);
            } else {
                lemma_visited(f, height, at, 0);
                assert(visit(f, height, at, 0).0.id == index.id);
                assert(visit(f, height, at, 0).1 == range);
                let gather = next.stage->Leaf_gather;
                lemma_gathering_starts(pages, chain, gather, PageTier::Leaf, asked);
                assert(is_leaf_walk(pages, root, c, at, range, gather, asked, 0));
            }
        },
        _ => {},
    }
}

proof fn lemma_child_walk(
    pages: Map<u64, Page>,
    root: Page,
    first: Seq<Change>,
    before: Seq<Change>,
    at: Seq<u8>,
    op: NextPageOp,
    action: Action,
    moment: Moment,
    turn: NextPageTurn,
)
    requires
        can_grow(root, moment.changes),
        extends(first, moment.changes),
        extends(before, moment.changes),
        op.stage is Leaf,
        is_advancing(pages, root, first, before, at, op, action),
        answers(pages, grown(root, moment.changes).0, action, moment.event),
        op.steps_to(moment.options, moment.safe_lsn, moment.now, moment.event, turn),
    ensures
        is_iter_turn(pages, root, first, moment.changes, at, op.iter.options, turn),
{
    let last = moment.changes;
    let gather = op.stage->Leaf_gather;
    let inner_next = op.stage->Leaf_inner_next;
    let range = up_to_rest(at, op.iter, inner_next);
    let (c, n) = choose|c: Seq<Change>, n: int|
        between(first, c, before) && #[trigger] is_leaf_walk(
            pages,
            root,
            c,
            at,
            range,
            gather,
            action,
            n,
        );
    let (f, height) = grown(root, c);
    let chain = f.chains[visit(f, height, at, 0).0.id];
    lemma_extends_transitive(c, before, last);
    lemma_grown_before(root, c, last);
    lemma_grown_tree(root, c);
    lemma_visited(f, height, at, 0);
    lemma_siblings_later(root, before, last, TreeIter { inner_next, ..op.iter });
    assert(page_ok(chain, f.places[visit(f, height, at, 0).0.id]));
    assert(chain.skip(n)[0] == chain[n]);
    match moment.event {
        Event::Page(page) => {
            if gather.objection(page) is None {
                let more = choose|more: Gather| #[trigger]
                    gather.with_page(page, more) && if page.info.chain_next == 0 {
                        op.leaf_ends(Seq::empty(), more, inner_next, turn)
                    } else {
                        turn.asks(
                            op.to(NextPageStage::Leaf { gather: more, inner_next }),
                            Action::ReadPage(
                                page.info.chain_next,
                                CacheOption::Default,
                            ),
                        )
                    };
                lemma_gathering_goes_on(pages, chain, gather, action, n, more);
                match turn.next {
                    Next::Run(next, asked) => {
                        assert(is_gathering(pages, chain, more, asked, n + 1));
                        assert(is_leaf_walk(pages, root, c, at, range, more, asked, n + 1));
                    },
                    Next::Done((iter, Ok(Some(leaf)))) => {
                        lemma_page_is_handed_out(root, c, at, more, leaf);
                        assert(is_arrived(root, c, at, leaf, came_to(iter)));
                    },
                    _ => {},
                }
            }
        },
        _ => {},
    }
}

/// A search that has found the leaf page goes on to read it.
proof fn lemma_leaf_is_sought(
    pages: Map<u64, Page>,
    root: Page,
    first: Seq<Change>,
    last: Seq<Change>,
    at: Seq<u8>,
    op: NextPageOp,
    target: Vec<u8>,
    search: FindLeafTurn,
    turn: NextPageTurn,
)
    requires
        can_grow(root, last),
        target@ == at,
        search.next matches Next::Done(Ok(_)),
        is_search_turn(pages, root, first, last, at, search),
        op.goes_on_with_search(target, search, turn),
    ensures
        is_iter_turn(pages, root, first, last, at, op.iter.options, turn),
{
    match search.next {
        Next::Done(Ok((view, parent))) => {
            let c = choose|c: Seq<Change>|
                between(first, c, last) && #[trigger] is_leaf_at(
                    pages,
                    root,
                    first,
                    c,
                    at,
                    view,
                    parent,
                );
            let (f, height) = grown(root, c);
            let chain = f.chains[view.at.id];
            lemma_grown_before(root, c, last);
            lemma_grown_tree(root, c);
            lemma_visited(f, height, at, 0);
            assert(page_ok(chain, f.places[view.at.id]));
            match turn.next {
                Next::Run(next, asked) => {
                    let gather = next.stage->SeekLeaf_gather;
                    lemma_gathering_starts(pages, chain, gather, PageTier::Leaf, asked);
                    assert(is_sought(
                        pages,
                        root,
                        first,
                        c,
                        at,
                        view,
                        parent,
                        gather,
                        asked,
                        0,
                    ));
                    assert(is_advancing(pages, root, first, last, at, next, asked));
                },
                _ => {},
            }
        },
        _ => {},
    }
}

/// Once the leaf page for the target has been read, its parent is read. Where the root itself is
/// the leaf page, the iterator is at its end.
proof fn lemma_leaf_is_read(
    pages: Map<u64, Page>,
    root: Page,
    first: Seq<Change>,
    c: Seq<Change>,
    last: Seq<Change>,
    at: Seq<u8>,
    op: NextPageOp,
    target: Vec<u8>,
    view: PageView,
    parent: Option<PageView>,
    gather: Gather,
    turn: NextPageTurn,
)
    requires
        can_grow(root, last),
        between(first, c, last),
        target@ == at,
        is_leaf_at(pages, root, first, c, at, view, parent),
        is_gathered(grown(root, c).0.chains[view.at.id], gather),
        op.seek_leaf_ends(Seq::empty(), gather, target, parent, turn),
    ensures
        is_iter_turn(pages, root, first, last, at, op.iter.options, turn),
{
    if gather.pages is Values {
        let (f, height) = grown(root, c);
        lemma_grown_before(root, c, last);
        lemma_grown_tree(root, c);
        lemma_visited(f, height, at, 0);
        match parent {
            None => {
                match turn.next {
                    Next::Done((iter, Ok(Some(leaf)))) => {
                        lemma_page_is_handed_out(root, c, at, gather, leaf);
                        assert(is_arrived(root, c, at, leaf, came_to(iter)));
                    },
                    _ => {},
                }
            },
            Some(parent) => {
                let index = Index { id: view.at.id, epoch: view.at.page.epoch };
                let range = view.range->0@;
                let above = choose|above: Seq<Change>|
                    between(first, above, c) && #[trigger] is_referred(
                        pages,
                        root,
                        above,
                        at,
                        0,
                        parent,
                        index,
                        range,
                    );
                let chain = grown(root, above).0.chains[parent.at.id];
                lemma_extends_transitive(above, c, last);
                lemma_grown_before(root, above, last);
                lemma_grown_tree(root, above);
                assert(page_ok(chain, grown(root, above).0.places[parent.at.id]));
                match turn.next {
                    Next::Run(next, asked) => {
                        let leaf = next.stage->leaf;
                        let children = next.stage->SeekParent_gather;
                        lemma_page_is_handed_out(root, c, at, gather, leaf);
                        assert(is_arrived(root, c, at, leaf, range.end));
                        lemma_gathering_starts(pages, chain, children, PageTier::Inner, asked);
                        assert(is_parent_walk(
                            pages,
                            root,
                            above,
                            at,
                            parent,
                            index,
                            range,
                            children,
                            asked,
                            0,
                        ));
                        assert(is_advancing(pages, root, first, last, at, next, asked));
                    },
                    _ => {},
                }
            },
        }
    }
}

proof fn lemma_sought_walk(
    pages: Map<u64, Page>,
    root: Page,
    first: Seq<Change>,
    before: Seq<Change>,
    at: Seq<u8>,
    op: NextPageOp,
    action: Action,
    moment: Moment,
    turn: NextPageTurn,
)
    requires
        can_grow(root, moment.changes),
        extends(first, moment.changes),
        extends(before, moment.changes),
        op.stage is SeekLeaf,
        is_advancing(pages, root, first, before, at, op, action),
        answers(pages, grown(root, moment.changes).0, action, moment.event),
        op.steps_to(moment.options, moment.safe_lsn, moment.now, moment.event, turn),
    ensures
        is_iter_turn(pages, root, first, moment.changes, at, op.iter.options, turn),
{
    let last = moment.changes;
    let gather = op.stage->SeekLeaf_gather;
    let target = op.stage->SeekLeaf_target;
    let parent = op.stage->parent;
    let (c, view, n) = choose|c: Seq<Change>, view: PageView, n: int|
        between(first, c, before) && #[trigger] is_sought(
            pages,
            root,
            first,
            c,
            at,
            view,
            parent,
            gather,
            action,
            n,
        );
    let (f, height) = grown(root, c);
    let chain = f.chains[view.at.id];
    lemma_extends_transitive(c, before, last);
    lemma_grown_before(root, c, last);
    lemma_grown_tree(root, c);
    lemma_visited(f, height, at, 0);
    assert(page_ok(chain, f.places[view.at.id]));
    assert(chain.skip(n)[0] == chain[n]);
    match moment.event {
        Event::Page(page) => {
            if gather.objection(page) is None {
                let more = choose|more: Gather| #[trigger]
                    gather.with_page(page, more) && if page.info.chain_next == 0 {
                        op.seek_leaf_ends(Seq::empty(), more, target, parent, turn)
                    } else {
                        turn.asks(
                            op.to(NextPageStage::SeekLeaf { gather: more, target, parent }),
                            Action::ReadPage(page.info.chain_next, CacheOption::Default),
                        )
                    };
                lemma_gathering_goes_on(pages, chain, gather, action, n, more);
                if page.info.chain_next == 0 {
                    lemma_leaf_is_read(
                        pages,
                        root,
                        first,
                        c,
                        last,
                        at,
                        op,
                        target,
                        view,
                        parent,
                        more,
                        turn,
                    );
                } else {
                    match turn.next {
                        Next::Run(next, asked) => {
                            assert(is_gathering(pages, chain, more, asked, n + 1));
                            assert(is_sought(
                                pages,
                                root,
                                first,
                                c,
                                at,
                                view,
                                parent,
                                more,
                                asked,
                                n + 1,
                            ));
                            assert(is_advancing(pages, root, first, last, at, next, asked));
                        },
                        _ => {},
                    }
                }
            }
        },
        _ => {},
    }
}

/// Once the parent has been read, the iterator knows the children that follow the leaf page.
proof fn lemma_parent_walk(
    pages: Map<u64, Page>,
    root: Page,
    first: Seq<Change>,
    before: Seq<Change>,
    at: Seq<u8>,
    op: NextPageOp,
    action: Action,
    moment: Moment,
    turn: NextPageTurn,
)
    requires
        can_grow(root, moment.changes),
        extends(first, moment.changes),
        extends(before, moment.changes),
        op.stage is SeekParent,
        is_advancing(pages, root, first, before, at, op, action),
        answers(pages, grown(root, moment.changes).0, action, moment.event),
        op.steps_to(moment.options, moment.safe_lsn, moment.now, moment.event, turn),
    ensures
        is_iter_turn(pages, root, first, moment.changes, at, op.iter.options, turn),
{
    let last = moment.changes;
    let gather = op.stage->SeekParent_gather;
    let target = op.stage->SeekParent_target;
    let end = op.stage->end;
    let leaf = op.stage->leaf;
    let (c, parent, index, range, n) = choose|
        c: Seq<Change>,
        parent: PageView,
        index: Index,
        range: RangeView,
        n: int,
    |
        between(first, c, before) && #[trigger] is_parent_walk(
            pages,
            root,
            c,
            at,
            parent,
            index,
            range,
            gather,
            action,
            n,
        ) && limit_view(end) == parent.range->0@.end && has_arrived(
            root,
            first,
            before,
            at,
            leaf,
            range.end,
        );
    let f = grown(root, c).0;
    let chain = f.chains[parent.at.id];
    lemma_extends_transitive(c, before, last);
    lemma_grown_before(root, c, last);
    lemma_grown_tree(root, c);
    lemma_arrived_later(root, first, before, last, at, leaf, range.end);
    assert(page_ok(chain, f.places[parent.at.id]));
    assert(chain.skip(n)[0] == chain[n]);
    match moment.event {
        Event::Page(page) => {
            if gather.objection(page) is None {
                let more = choose|more: Gather| #[trigger]
                    gather.with_page(page, more) && if page.info.chain_next == 0 {
                        op.seek_parent_ends(Seq::empty(), more, target, end, leaf, turn)
                    } else {
                        turn.asks(
                            op.to(NextPageStage::SeekParent { gather: more, target, end, leaf }),
                            Action::ReadPage(page.info.chain_next, CacheOption::Default),
                        )
                    };
                lemma_gathering_goes_on(pages, chain, gather, action, n, more);
                match turn.next {
                    Next::Run(next, asked) => {
                        assert(is_gathering(pages, chain, more, asked, n + 1));
                        assert(is_parent_walk(
                            pages,
                            root,
                            c,
                            at,
                            parent,
                            index,
                            range,
                            more,
                            asked,
                            n + 1,
                        ));
                        assert(is_advancing(pages, root, first, last, at, next, asked));
                    },
                    Next::Done((iter, Ok(Some(_)))) => {
                        lemma_siblings_are_known(
                            pages,
                            root,
                            c,
                            at,
                            parent,
                            index,
                            range,
                            more,
                            iter,
                        );
                        lemma_siblings_later(root, c, last, iter);
                    },
                    _ => {},
                }
            }
        },
        _ => {},
    }
}

/// A step of an iterator keeps to what an iterator comes to.
proof fn lemma_iter_step(
    pages: Map<u64, Page>,
    root: Page,
    first: Seq<Change>,
    before: Seq<Change>,
    at: Seq<u8>,
    op: NextPageOp,
    action: Action,
    moment: Moment,
    turn: NextPageTurn,
)
    requires
        can_grow(root, moment.changes),
        extends(first, moment.changes),
        extends(before, moment.changes),
        is_advancing(pages, root, first, before, at, op, action),
        answers(pages, grown(root, moment.changes).0, action, moment.event),
        op.steps_to(moment.options, moment.safe_lsn, moment.now, moment.event, turn),
    ensures
        is_iter_turn(pages, root, first, moment.changes, at, op.iter.options, turn),
{
    match op.stage {
        NextPageStage::Addr { .. } => {
            lemma_child_lookup(pages, root, first, before, at, op, action, moment, turn);
        },
        NextPageStage::Info { .. } => {
            lemma_child_header(pages, root, first, before, at, op, action, moment, turn);
        },
        NextPageStage::Leaf { .. } => {
            lemma_child_walk(pages, root, first, before, at, op, action, moment, turn);
        },
        NextPageStage::Find { search, target } => {
            let searched = choose|searched: FindLeafTurn| #[trigger]
                search.steps_to(
                    moment.options,
                    moment.safe_lsn,
                    moment.now,
                    moment.event,
                    searched,
                ) && op.goes_on_with_search(target, searched, turn);
            law_search_keeps_on_its_way(
                pages,
                root,
                first,
                before,
                search,
                action,
                moment,
                searched,
            );
            if searched.next matches Next::Done(Ok(_)) {
                lemma_leaf_is_sought(
                    pages,
                    root,
                    first,
                    moment.changes,
                    at,
                    op,
                    target,
                    searched,
                    turn,
                );
            }
        },
        NextPageStage::SeekLeaf { .. } => {
            lemma_sought_walk(pages, root, first, before, at, op, action, moment, turn);
        },
        NextPageStage::SeekParent { .. } => {
            lemma_parent_walk(pages, root, first, before, at, op, action, moment, turn);
        },
    }
}

/// The next turn is handed what came of the action that the turn before it asked for.
pub open spec fn is_iter_step(
    pages: Map<u64, Page>,
    root: Page,
    moments: Seq<Moment>,
    turns: Seq<NextPageTurn>,
    i: int,
) -> bool {
    let moment = moments[i];
    &&& can_grow(root, moment.changes)
    &&& i > 0 ==> extends(moments[i - 1].changes, moment.changes)
    &&& turns[i].next matches Next::Run(op, action)
    &&& answers(pages, grown(root, moment.changes).0, action, moment.event)
    &&& op.steps_to(
        moment.options,
        moment.safe_lsn,
        moment.now,
        moment.event,
        turns[i + 1],
    )
}

/// A run of a step of an iterator: it starts, and goes on turn by turn. The tree changes as it
/// may.
pub open spec fn is_iter_run(
    pages: Map<u64, Page>,
    root: Page,
    iter: TreeIter,
    moments: Seq<Moment>,
    turns: Seq<NextPageTurn>,
) -> bool {
    &&& turns.len() == moments.len() + 1
    &&& iter.next_page_starts(turns[0])
    &&& forall|i: int|
        0 <= i < moments.len() ==> #[trigger] is_iter_step(pages, root, moments, turns, i)
}

proof fn lemma_iter_run(
    pages: Map<u64, Page>,
    root: Page,
    iter: TreeIter,
    at: Seq<u8>,
    moments: Seq<Moment>,
    turns: Seq<NextPageTurn>,
    n: int,
)
    requires
        is_iter_run(pages, root, iter, moments, turns),
        0 < n <= moments.len(),
        came_to(iter) == Some(at),
        ({
            let (f, height) = grown(root, moments[0].changes);
            knows_siblings(f, height, iter)
        }),
    ensures
        extends(moments[0].changes, moments[n - 1].changes),
        is_iter_turn(
            pages,
            root,
            moments[0].changes,
            moments[n - 1].changes,
            at,
            iter.options,
            turns[n],
        ),
    decreases n,
{
    let first = moments[0].changes;
    let moment = moments[n - 1];
    assert(is_iter_step(pages, root, moments, turns, n - 1));
    assert(first =~= first.take(first.len() as int));
    match turns[n - 1].next {
        Next::Run(op, action) => {
            let before = if n == 1 {
                first
            } else {
                moments[n - 2].changes
            };
            if n == 1 {
                lemma_advance_begins(pages, root, first, iter, at, turns[0]);
            } else {
                lemma_iter_run(pages, root, iter, at, moments, turns, n - 1);
                assert(moments[n - 2].changes == before);
                lemma_extends_transitive(first, before, moment.changes);
            }
            lemma_iter_step(
                pages,
                root,
                first,
                before,
                at,
                op,
                action,
                moment,
                turns[n],
            );
        },
        _ => {},
    }
}

/// An iterator that has come to a key hands out the page of the leaf page that was responsible
/// for the key at some point of the step, and comes to the end of the range of that page. It
/// still knows then which children follow.
pub proof fn law_next_page_is_the_page_that_follows(
    pages: Map<u64, Page>,
    root: Page,
    iter: TreeIter,
    at: Seq<u8>,
    moments: Seq<Moment>,
    turns: Seq<NextPageTurn>,
    after: TreeIter,
    page: Option<PageIter>,
)
    requires
        is_iter_run(pages, root, iter, moments, turns),
        turns.last().next == NextPageNext::Done((after, Ok(page))),
        came_to(iter) == Some(at),
        ({
            let (f, height) = grown(root, moments[0].changes);
            knows_siblings(f, height, iter)
        }),
    ensures
        moments.len() > 0,
        extends(moments[0].changes, moments.last().changes),
        ({
            let (f, height) = grown(root, moments.last().changes);
            &&& knows_siblings(f, height, after)
            &&& after.options == iter.options
            &&& page matches Some(leaf) && leaf.max_lsn == iter.options.max_lsn && has_arrived(
                root,
                moments[0].changes,
                moments.last().changes,
                at,
                leaf,
                came_to(after),
            )
        }),
{
    let n = moments.len() as int;
    if n == 0 {
        lemma_advance_begins(pages, root, moments[0].changes, iter, at, turns[0]);
    }
    lemma_iter_run(pages, root, iter, at, moments, turns, n);
    assert(moments[n - 1].changes == moments.last().changes);
}

/// An iterator that has come to the end of the keys hands out nothing, and stays there.
pub proof fn law_iterator_at_its_end_hands_out_nothing(iter: TreeIter, turn: NextPageTurn)
    requires
        came_to(iter) is None,
        iter.next_page_starts(turn),
    ensures
        turn.next matches Next::Done((after, Ok(None))) && came_to(after) is None
            && after.options == iter.options,
{
}

/// Where the root itself is the leaf page, its page is the last one.
pub proof fn law_page_of_a_single_leaf_is_the_last(
    root: Page,
    c: Seq<Change>,
    at: Seq<u8>,
    page: PageIter,
    end: Option<Seq<u8>>,
)
    requires
        can_grow(root, c),
        grown(root, c).1 == 0,
        is_arrived(root, c, at, page, end),
    ensures
        end is None,
{
    let (f, height) = grown(root, c);
    lemma_grown_tree(root, c);
    law_root_is_responsible_for_all_keys(f, height, at);
}

} // verus!
