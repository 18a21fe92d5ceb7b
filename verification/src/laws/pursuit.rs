//! A search from its start to its end, while the tree changes under it.

use crate::laws::forest::{found, law_root_is_responsible_for_all_keys, lemma_child_of,
    lemma_visited, page_ok, path_ok, refer, Forest};
use crate::laws::history::{can_grow, grown, Change};
use crate::laws::runs::{aims, answers, between, extends, lemma_extends_transitive,
    lemma_grown_before, lemma_grown_tree, lemma_growth_keeps_aim, lemma_reference_aims, Moment};
use crate::laws::searching::lemma_find_child_behind;
use crate::laws::store::is_chain;
use crate::lookup::page_child;
use crate::page::{root_index, root_range, Index, Page, PageView, RangeView, ROOT_ID};
use crate::search::{is_at_root, FindLeafOp, FindLeafTurn, FindStage};
use crate::turn::{Action, Event, Next};
use vstd::prelude::*;

verus! {

/// The view is of the page that was responsible for the key at the level, and its chain
/// stands at the address.
pub open spec fn is_seen(
    pages: Map<u64, Page>,
    f: Forest,
    height: nat,
    raw: Seq<u8>,
    level: nat,
    view: PageView,
) -> bool {
    &&& level <= height
    &&& found(f, height, raw, level, view.at.id)
    &&& f.has(view.at.id)
    &&& view.at.page == f.head(view.at.id).info
    &&& view.range matches Some(range) && range@ == refer(f, height, raw, level).1
    &&& is_chain(pages, view.at.addr, f.chains[view.at.id])
}

/// When the changes had been made, the parent was responsible for the key above the level, and
/// it referred to the child.
pub open spec fn is_referred(
    pages: Map<u64, Page>,
    root: Page,
    c: Seq<Change>,
    raw: Seq<u8>,
    level: nat,
    parent: PageView,
    index: Index,
    range: RangeView,
) -> bool {
    let (f, height) = grown(root, c);
    &&& level < height
    &&& is_seen(pages, f, height, raw, level + 1, parent)
    &&& refer(f, height, raw, level) == (index, range)
}

/// The reference is the one to the root, or a parent has given it that was seen since the
/// first changes.
pub open spec fn is_given(
    pages: Map<u64, Page>,
    root: Page,
    first: Seq<Change>,
    last: Seq<Change>,
    raw: Seq<u8>,
    level: nat,
    parent: Option<PageView>,
    index: Index,
    range: RangeView,
) -> bool {
    match parent {
        None => index == root_index() && range == root_range(),
        Some(parent) => exists|c: Seq<Change>|
            between(first, c, last) && #[trigger] is_referred(
                pages,
                root,
                c,
                raw,
                level,
                parent,
                index,
                range,
            ),
    }
}

/// When the changes had been made, the id of the reference led to the address.
pub open spec fn is_looked_up(
    pages: Map<u64, Page>,
    root: Page,
    first: Seq<Change>,
    c: Seq<Change>,
    raw: Seq<u8>,
    level: nat,
    parent: Option<PageView>,
    index: Index,
    range: RangeView,
    addr: u64,
) -> bool {
    let (f, height) = grown(root, c);
    &&& f.has(index.id)
    &&& is_chain(pages, addr, f.chains[index.id])
    &&& is_given(pages, root, first, c, raw, level, parent, index, range)
    &&& parent is Some ==> aims(f, height, raw, level, index, range)
}

/// The search reads the page at `j` of the chain of an inner page that was responsible for
/// the key when the changes had been made; the pages before it have named no child.
pub open spec fn is_walked(
    pages: Map<u64, Page>,
    root: Page,
    c: Seq<Change>,
    raw: Seq<u8>,
    level: nat,
    view: PageView,
    action: Action,
    j: int,
) -> bool {
    let (f, height) = grown(root, c);
    let chain = f.chains[view.at.id];
    &&& level > 0
    &&& is_seen(pages, f, height, raw, level, view)
    &&& 0 <= j < chain.len()
    &&& forall|k: int| 0 <= k < j ==> page_child(#[trigger] chain[k], raw) is None
    &&& action matches Action::ReadPage(addr, _) && is_chain(pages, addr, chain.skip(j))
}

/// The search is on its way, and asks for what it needs next.
pub open spec fn is_on_its_way(
    pages: Map<u64, Page>,
    root: Page,
    first: Seq<Change>,
    last: Seq<Change>,
    op: FindLeafOp,
    action: Action,
) -> bool {
    match op.stage {
        FindStage::Addr { index, range } => {
            &&& action == Action::PageAddr(index.id)
            &&& exists|level: nat| #[trigger]
                is_given(pages, root, first, last, op.key@, level, op.parent, index, range@)
        },
        FindStage::Info { index, range, addr } => {
            &&& action == Action::ReadPageInfo(addr)
            &&& exists|c: Seq<Change>, level: nat|
                between(first, c, last) && #[trigger] is_looked_up(
                    pages,
                    root,
                    first,
                    c,
                    op.key@,
                    level,
                    op.parent,
                    index,
                    range@,
                    addr,
                )
        },
        FindStage::Child { view } => exists|c: Seq<Change>, level: nat, j: int|
            between(first, c, last) && #[trigger] is_walked(
                pages,
                root,
                c,
                op.key@,
                level,
                view,
                action,
                j,
            ),
        FindStage::Reconcile(_) => true,
    }
}

/// When the changes had been made, the leaf page was responsible for the key, and its parent had
/// referred to it with the same range.
pub open spec fn is_leaf_at(
    pages: Map<u64, Page>,
    root: Page,
    first: Seq<Change>,
    c: Seq<Change>,
    raw: Seq<u8>,
    view: PageView,
    parent: Option<PageView>,
) -> bool {
    let (f, height) = grown(root, c);
    &&& is_seen(pages, f, height, raw, 0, view)
    &&& parent is None ==> height == 0
    &&& is_given(
        pages,
        root,
        first,
        c,
        raw,
        0,
        parent,
        Index { id: view.at.id, epoch: view.at.page.epoch },
        view.range->0@,
    )
}

/// What a turn of a search for the key has come to.
pub open spec fn is_search_turn(
    pages: Map<u64, Page>,
    root: Page,
    first: Seq<Change>,
    last: Seq<Change>,
    raw: Seq<u8>,
    turn: FindLeafTurn,
) -> bool {
    match turn.next {
        Next::Run(op, action) => op.key@ == raw && is_on_its_way(
            pages,
            root,
            first,
            last,
            op,
            action,
        ),
        Next::Done(Ok((view, parent))) => exists|c: Seq<Change>|
            between(first, c, last) && #[trigger] is_leaf_at(
                pages,
                root,
                first,
                c,
                raw,
                view,
                parent,
            ),
        _ => true,
    }
}

/// A search that begins is on its way.
pub proof fn lemma_search_begins(
    pages: Map<u64, Page>,
    root: Page,
    first: Seq<Change>,
    last: Seq<Change>,
    op: FindLeafOp,
    raw: Seq<u8>,
)
    requires
        is_at_root(op, raw),
    ensures
        is_on_its_way(pages, root, first, last, op, Action::PageAddr(ROOT_ID)),
{
    let index = op.stage->Addr_index;
    let range = op.stage->Addr_range;
    assert(is_given(pages, root, first, last, op.key@, 0, op.parent, index, range@));
}

/// A search that has been given a reference is on its way.
proof fn lemma_given(
    pages: Map<u64, Page>,
    root: Page,
    first: Seq<Change>,
    last: Seq<Change>,
    op: FindLeafOp,
    level: nat,
)
    requires
        op.stage is Addr,
        is_given(
            pages,
            root,
            first,
            last,
            op.key@,
            level,
            op.parent,
            op.stage->Addr_index,
            op.stage->Addr_range@,
        ),
    ensures
        is_on_its_way(
            pages,
            root,
            first,
            last,
            op,
            Action::PageAddr(op.stage->Addr_index.id),
        ),
{
}

/// A search that has looked up an address is on its way.
proof fn lemma_looked_up(
    pages: Map<u64, Page>,
    root: Page,
    first: Seq<Change>,
    last: Seq<Change>,
    op: FindLeafOp,
    c: Seq<Change>,
    level: nat,
)
    requires
        op.stage is Info,
        between(first, c, last),
        is_looked_up(
            pages,
            root,
            first,
            c,
            op.key@,
            level,
            op.parent,
            op.stage->Info_index,
            op.stage->Info_range@,
            op.stage->addr,
        ),
    ensures
        is_on_its_way(pages, root, first, last, op, Action::ReadPageInfo(op.stage->addr)),
{
}

/// A search that walks a chain is on its way.
proof fn lemma_walked(
    pages: Map<u64, Page>,
    root: Page,
    first: Seq<Change>,
    last: Seq<Change>,
    op: FindLeafOp,
    action: Action,
    c: Seq<Change>,
    level: nat,
    j: int,
)
    requires
        op.stage is Child,
        between(first, c, last),
        is_walked(pages, root, c, op.key@, level, op.stage->view, action, j),
    ensures
        is_on_its_way(pages, root, first, last, op, action),
{
}

/// Later changes do not matter to what has been given.
proof fn lemma_given_later(
    pages: Map<u64, Page>,
    root: Page,
    first: Seq<Change>,
    a: Seq<Change>,
    b: Seq<Change>,
    raw: Seq<u8>,
    level: nat,
    parent: Option<PageView>,
    index: Index,
    range: RangeView,
)
    requires
        is_given(pages, root, first, a, raw, level, parent, index, range),
        extends(a, b),
    ensures
        is_given(pages, root, first, b, raw, level, parent, index, range),
{
    match parent {
        Some(parent) => {
            let c = choose|c: Seq<Change>|
                between(first, c, a) && #[trigger] is_referred(
                    pages,
                    root,
                    c,
                    raw,
                    level,
                    parent,
                    index,
                    range,
                );
            lemma_extends_transitive(c, a, b);
            assert(is_referred(pages, root, c, raw, level, parent, index, range));
        },
        None => {},
    }
}

proof fn lemma_lookup(
    pages: Map<u64, Page>,
    root: Page,
    first: Seq<Change>,
    before: Seq<Change>,
    last: Seq<Change>,
    op: FindLeafOp,
    addr: u64,
)
    requires
        can_grow(root, last),
        extends(first, last),
        extends(before, last),
        op.stage is Addr,
        is_on_its_way(
            pages,
            root,
            first,
            before,
            op,
            Action::PageAddr(op.stage->Addr_index.id),
        ),
        answers(
            pages,
            grown(root, last).0,
            Action::PageAddr(op.stage->Addr_index.id),
            Event::Addr(addr),
        ),
    ensures
        ({
            let index = op.stage->Addr_index;
            let range = op.stage->Addr_range;
            exists|level: nat| #[trigger]
                is_looked_up(
                    pages,
                    root,
                    first,
                    last,
                    op.key@,
                    level,
                    op.parent,
                    index,
                    range@,
                    addr,
                )
        }),
{
    let index = op.stage->Addr_index;
    let range = op.stage->Addr_range;
    let raw = op.key@;
    let (f, height) = grown(root, last);
    let level = choose|level: nat| #[trigger]
        is_given(pages, root, first, before, raw, level, op.parent, index, range@);
    lemma_grown_tree(root, last);
    lemma_given_later(pages, root, first, before, last, raw, level, op.parent, index, range@);
    match op.parent {
        None => {
            law_root_is_responsible_for_all_keys(f, height, raw);
        },
        Some(parent) => {
            let c = choose|c: Seq<Change>|
                between(first, c, before) && #[trigger] is_referred(
                    pages,
                    root,
                    c,
                    raw,
                    level,
                    parent,
                    index,
                    range@,
                );
            lemma_extends_transitive(c, before, last);
            lemma_grown_before(root, c, last);
            lemma_grown_tree(root, c);
            lemma_reference_aims(grown(root, c).0, grown(root, c).1, raw, level);
            lemma_growth_keeps_aim(root, c, last, raw, level, index, range@);
        },
    }
    assert(is_looked_up(
        pages,
        root,
        first,
        last,
        raw,
        level,
        op.parent,
        index,
        range@,
        addr,
    ));
}

proof fn lemma_arrival(
    pages: Map<u64, Page>,
    root: Page,
    first: Seq<Change>,
    before: Seq<Change>,
    op: FindLeafOp,
    moment: Moment,
    turn: FindLeafTurn,
)
    requires
        can_grow(root, moment.changes),
        extends(first, moment.changes),
        extends(before, moment.changes),
        op.stage is Info,
        is_on_its_way(
            pages,
            root,
            first,
            before,
            op,
            Action::ReadPageInfo(op.stage->addr),
        ),
        moment.event == Event::Info(pages[op.stage->addr].info),
        op.steps_to(moment.options, moment.safe_lsn, moment.now, moment.event, turn),
    ensures
        is_search_turn(pages, root, first, moment.changes, op.key@, turn),
{
    let raw = op.key@;
    let index = op.stage->Info_index;
    let range = op.stage->Info_range;
    let addr = op.stage->addr;
    let (c, level) = choose|c: Seq<Change>, level: nat|
        between(first, c, before) && #[trigger] is_looked_up(
            pages,
            root,
            first,
            c,
            raw,
            level,
            op.parent,
            index,
            range@,
            addr,
        );
    let (f, height) = grown(root, c);
    lemma_extends_transitive(c, before, moment.changes);
    lemma_grown_before(root, c, moment.changes);
    lemma_grown_tree(root, c);
    law_root_is_responsible_for_all_keys(f, height, raw);
    let chain = f.chains[index.id];
    assert(page_ok(chain, f.places[index.id]));
    let page = f.head(index.id).info;
    assert(pages[addr] == chain[0]);
    if page.epoch != index.epoch {
        match turn.next {
            Next::Run(next, action) => {
                if !(next.stage is Reconcile) {
                    lemma_search_begins(pages, root, first, moment.changes, next, raw);
                }
                assert(is_on_its_way(pages, root, first, moment.changes, next, action));
            },
            _ => {},
        }
    } else {
        // The level at which the page stands.
        let at: nat = if op.parent is None {
            height
        } else {
            level
        };
        assert(found(f, height, raw, at, index.id));
        assert(refer(f, height, raw, at).1 == range@);
        lemma_visited(f, height, raw, at);
        assert(path_ok(f, height, raw, at));
        match turn.next {
            Next::Done(Ok((view, parent))) => {
                assert(chain[0].info.tier is Leaf);
                assert(at == 0);
                if op.parent is None {
                    lemma_given_later(
                        pages,
                        root,
                        first,
                        c,
                        c,
                        raw,
                        level,
                        op.parent,
                        index,
                        range@,
                    );
                }
                assert(is_leaf_at(pages, root, first, c, raw, view, parent));
            },
            Next::Run(next, action) => {
                assert(chain.skip(0) =~= chain);
                lemma_walked(pages, root, first, moment.changes, next, action, c, at, 0);
            },
            _ => {},
        }
    }
}

proof fn lemma_descent(
    pages: Map<u64, Page>,
    root: Page,
    first: Seq<Change>,
    before: Seq<Change>,
    op: FindLeafOp,
    action: Action,
    moment: Moment,
    turn: FindLeafTurn,
)
    requires
        can_grow(root, moment.changes),
        extends(first, moment.changes),
        extends(before, moment.changes),
        op.stage is Child,
        is_on_its_way(pages, root, first, before, op, action),
        action matches Action::ReadPage(addr, _) && moment.event == Event::Page(pages[addr]),
        op.steps_to(moment.options, moment.safe_lsn, moment.now, moment.event, turn),
    ensures
        is_search_turn(pages, root, first, moment.changes, op.key@, turn),
{
    let raw = op.key@;
    let view = op.stage->view;
    let (c, level, j) = choose|c: Seq<Change>, level: nat, j: int|
        between(first, c, before) && #[trigger] is_walked(
            pages,
            root,
            c,
            raw,
            level,
            view,
            action,
            j,
        );
    let (f, height) = grown(root, c);
    lemma_extends_transitive(c, before, moment.changes);
    lemma_grown_before(root, c, moment.changes);
    lemma_grown_tree(root, c);
    let chain = f.chains[view.at.id];
    let addr = action->ReadPage_0;
    assert(chain.skip(j)[0] == chain[j]);
    assert(chain.skip(j).drop_first() =~= chain.skip(j + 1));
    assert(pages[addr] == chain[j]);
    lemma_visited(f, height, raw, level);
    assert(path_ok(f, height, raw, level));
    lemma_child_of(chain, f.places[view.at.id], raw);
    lemma_find_child_behind(chain, raw, j);
    match turn.next {
        Next::Run(next, asked) => {
            if page_child(chain[j], raw) is Some {
                let low = (level - 1) as nat;
                let index = next.stage->Addr_index;
                let range = next.stage->Addr_range;
                assert(refer(f, height, raw, low) == (index, range@));
                assert(is_referred(pages, root, c, raw, low, view, index, range@));
                lemma_given(pages, root, first, moment.changes, next, low);
            } else {
                assert(is_chain(pages, chain[j].info.chain_next, chain.skip(j + 1)));
                if j + 1 == chain.len() {
                    assert(chain.skip(j + 1).len() == 0);
                }
                lemma_walked(pages, root, first, moment.changes, next, asked, c, level, j + 1);
            }
        },
        _ => {},
    }
}

/// A search stays on its way until it has come to a leaf page that was responsible for the key
/// at some point since the search began, however the tree changes meanwhile.
pub proof fn law_search_keeps_on_its_way(
    pages: Map<u64, Page>,
    root: Page,
    first: Seq<Change>,
    before: Seq<Change>,
    op: FindLeafOp,
    action: Action,
    moment: Moment,
    turn: FindLeafTurn,
)
    requires
        can_grow(root, moment.changes),
        extends(first, moment.changes),
        extends(before, moment.changes),
        is_on_its_way(pages, root, first, before, op, action),
        answers(pages, grown(root, moment.changes).0, action, moment.event),
        op.steps_to(moment.options, moment.safe_lsn, moment.now, moment.event, turn),
    ensures
        is_search_turn(pages, root, first, moment.changes, op.key@, turn),
{
    let last = moment.changes;
    match (op.stage, moment.event) {
        (FindStage::Addr { index, range }, Event::Addr(addr)) => {
            lemma_lookup(pages, root, first, before, last, op, addr);
            let level = choose|level: nat| #[trigger]
                is_looked_up(
                    pages,
                    root,
                    first,
                    last,
                    op.key@,
                    level,
                    op.parent,
                    index,
                    range@,
                    addr,
                );
            assert(extends(last, last)) by {
                assert(last =~= last.take(last.len() as int));
            }
            assert(between(first, last, last));
            match turn.next {
                Next::Run(next, asked) => {
                    lemma_looked_up(pages, root, first, last, next, last, level);
                },
                _ => {},
            }
        },
        (FindStage::Info { .. }, Event::Info(_)) => {
            lemma_arrival(pages, root, first, before, op, moment, turn);
        },
        (FindStage::Child { .. }, Event::Page(_)) => {
            lemma_descent(pages, root, first, before, op, action, moment, turn);
        },
        _ => {
            match turn.next {
                Next::Run(next, asked) => {
                    if !(next.stage is Reconcile) {
                        lemma_search_begins(pages, root, first, last, next, op.key@);
                    }
                    assert(is_on_its_way(pages, root, first, last, next, asked));
                },
                _ => {},
            }
        },
    }
}

} // verus!
