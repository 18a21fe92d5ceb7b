//! A reconciliation from its start to its end, while the tree changes under it.

use crate::laws::effects::{built_page, law_reconciliation_builds_its_page};
use crate::laws::forest::{found, lemma_visited, page_ok, path_ok, refer, tree_ok, Forest};
use crate::laws::history::{can_change, can_grow, changed, grown, law_epoch_guards_the_search,
    lemma_change_keeps_tree, Change};
use crate::laws::pursuit::is_referred;
use crate::laws::runs::{answers, between, extends, lemma_change_keeps_pages,
    lemma_extends_transitive, lemma_grown_before, lemma_grown_tree, lemma_reference_aims, Moment};
use crate::laws::store::is_chain;
use crate::lookup::split_delta;
use crate::page::{chained_header, Draft, Index, Items, Page, PageHandle, PageView, RangeView,
    ROOT_ID};
use crate::reconcile::{is_reconcile_delta, reconcile_starts, ReconcileTurn};
use crate::turn::{Action, Next};
use vstd::prelude::*;

verus! {

/// The change leads the id to another page.
pub open spec fn exchanges(change: Change, id: u64) -> bool {
    match change {
        Change::Write { leaf_id, .. } => leaf_id == id,
        Change::Part { page_id, .. } => page_id == id,
        Change::Tell { parent_id, .. } => parent_id == id,
        Change::Raise { .. } => id == ROOT_ID,
        Change::ConsolidateLeaf { leaf_id, .. } => leaf_id == id,
        Change::ConsolidateInner { inner_id, .. } => inner_id == id,
    }
}

/// Between the two points the id leads to the same page.
pub open spec fn is_unmoved(first: Seq<Change>, last: Seq<Change>, id: u64) -> bool {
    &&& extends(first, last)
    &&& forall|i: int| first.len() <= i < last.len() ==> !exchanges(#[trigger] last[i], id)
}

/// A parent that no change leads its id away from goes on to refer to the child.
proof fn lemma_parent_stays(
    f: Forest,
    height: nat,
    change: Change,
    raw: Seq<u8>,
    level: nat,
    parent_id: u64,
)
    requires
        tree_ok(f, height),
        can_change(f, height, change),
        level < height,
        found(f, height, raw, level + 1, parent_id),
        !exchanges(change, parent_id),
    ensures
        ({
            let (g, after) = changed(f, height, change);
            &&& level < after
            &&& found(g, after, raw, level + 1, parent_id)
            &&& g.chains[parent_id] == f.chains[parent_id]
            &&& refer(g, after, raw, level + 1) == refer(f, height, raw, level + 1)
            &&& refer(g, after, raw, level) == refer(f, height, raw, level)
        }),
{
    let (g, after) = changed(f, height, change);
    assert(path_ok(f, height, raw, level + 1));
    lemma_visited(f, height, raw, level + 1);
    lemma_change_keeps_tree(f, height, change);
    lemma_change_keeps_pages(f, height, change, parent_id);
    match change {
        Change::Part { half_id, .. } => {
            assert(half_id != parent_id);
        },
        Change::Raise { left_id, right_id, .. } => {
            assert(left_id != parent_id && right_id != parent_id);
        },
        _ => {},
    }
    assert(g.chains[parent_id] == f.chains[parent_id]);
    if parent_id == ROOT_ID {
        if level + 1 < height {
            lemma_reference_aims(f, height, raw, level + 1);
        }
        assert(after == height);
    } else {
        law_epoch_guards_the_search(f, height, change, raw, level + 1, parent_id);
    }
    assert(path_ok(g, after, raw, level + 1));
    lemma_visited(g, after, raw, level + 1);
    assert(refer(g, after, raw, level + 1).0 == refer(f, height, raw, level + 1).0);
    assert(refer(g, after, raw, level + 1).1 == refer(f, height, raw, level + 1).1);
}

/// A child with a split that its parent has not been told of is left alone.
proof fn lemma_child_stays(
    f: Forest,
    height: nat,
    change: Change,
    raw: Seq<u8>,
    level: nat,
)
    requires
        tree_ok(f, height),
        can_change(f, height, change),
        level < height,
        ({
            let index = refer(f, height, raw, level).0;
            f.head(index.id).info.epoch != index.epoch
        }),
    ensures
        ({
            let id = refer(f, height, raw, level).0.id;
            changed(f, height, change).0.chains[id] == f.chains[id]
        }),
{
    let index = refer(f, height, raw, level).0;
    assert(path_ok(f, height, raw, level));
    lemma_reference_aims(f, height, raw, level);
    assert(f.pending(index.id));
    match change {
        Change::Write { key, .. } => {
            assert(path_ok(f, height, key.raw@, 0));
        },
        Change::Part { near, level: at, .. } => {
            assert(path_ok(f, height, near, at));
        },
        Change::Tell { near, level: at, .. } => {
            assert(path_ok(f, height, near, at + 1));
        },
        _ => {},
    }
}

/// As long as the parent stays, so does what is pending below it.
proof fn lemma_pending_stays(
    root: Page,
    a: Seq<Change>,
    b: Seq<Change>,
    raw: Seq<u8>,
    level: nat,
    parent_id: u64,
)
    requires
        can_grow(root, b),
        is_unmoved(a, b, parent_id),
        level < grown(root, a).1,
        found(grown(root, a).0, grown(root, a).1, raw, level + 1, parent_id),
    ensures
        ({
            let (f, height) = grown(root, a);
            let (g, after) = grown(root, b);
            let index = refer(f, height, raw, level).0;
            &&& level < after
            &&& found(g, after, raw, level + 1, parent_id)
            &&& g.chains[parent_id] == f.chains[parent_id]
            &&& refer(g, after, raw, level + 1) == refer(f, height, raw, level + 1)
            &&& refer(g, after, raw, level) == refer(f, height, raw, level)
            &&& f.head(index.id).info.epoch != index.epoch ==> g.chains[index.id]
                == f.chains[index.id]
        }),
    decreases b.len(),
{
    if a.len() == b.len() {
        assert(a =~= b);
    } else {
        let rest = b.drop_last();
        assert(extends(a, rest)) by {
            assert(a =~= b.take(a.len() as int));
            assert(a =~= rest.take(a.len() as int));
        }
        assert forall|i: int| a.len() <= i < rest.len() implies !exchanges(
            #[trigger] rest[i],
            parent_id,
        ) by {
            assert(rest[i] == b[i]);
        }
        lemma_pending_stays(root, a, rest, raw, level, parent_id);
        let (f, height) = grown(root, a);
        let (g, middle) = grown(root, rest);
        let index = refer(f, height, raw, level).0;
        lemma_grown_tree(root, rest);
        assert(!exchanges(b[b.len() - 1], parent_id));
        lemma_parent_stays(g, middle, b.last(), raw, level, parent_id);
        if f.head(index.id).info.epoch != index.epoch {
            lemma_child_stays(g, middle, b.last(), raw, level);
        }
    }
}

/// The step is handed what came of the action that the turn before it asked for.
pub open spec fn is_reconcile_step(
    pages: Map<u64, Page>,
    root: Page,
    moments: Seq<Moment>,
    turns: Seq<ReconcileTurn>,
    i: int,
) -> bool {
    let moment = moments[i];
    &&& can_grow(root, moment.changes)
    &&& i > 0 ==> extends(moments[i - 1].changes, moment.changes)
    &&& turns[i].next matches Next::Run(op, action)
    &&& answers(pages, grown(root, moment.changes).0, action, moment.event)
    &&& op.steps_to(
        moment.options,
        moment.safe_lsn,
        moment.now,
        moment.event,
        turns[i + 1],
    )
}

/// A run of a reconciliation: it starts, and goes on step by step. The tree changes as it may.
pub open spec fn is_reconcile_run(
    pages: Map<u64, Page>,
    root: Page,
    view: PageView,
    parent: PageHandle,
    moments: Seq<Moment>,
    turns: Seq<ReconcileTurn>,
) -> bool {
    &&& turns.len() == moments.len() + 1
    &&& reconcile_starts(view, Some(parent), turns[0])
    &&& forall|i: int|
        0 <= i < moments.len() ==> #[trigger] is_reconcile_step(pages, root, moments, turns, i)
}

/// The search has found that the page that the parent refers to has been split: the parent
/// was seen when the first changes had been made, and the address of the page was looked up
/// when the later ones had been made.
pub open spec fn is_found_split(
    pages: Map<u64, Page>,
    root: Page,
    seen: Seq<Change>,
    looked_up: Seq<Change>,
    raw: Seq<u8>,
    level: nat,
    parent: PageView,
    index: Index,
    range: RangeView,
    view: PageView,
) -> bool {
    let f = grown(root, looked_up).0;
    &&& is_referred(pages, root, seen, raw, level, parent, index, range)
    &&& view.at.id == index.id
    &&& view.range matches Some(r) && r@ == range
    &&& is_chain(pages, view.at.addr, f.chains[index.id])
    &&& view.at.page == f.head(index.id).info
    &&& view.at.page.epoch != index.epoch
}

/// The change of the tree that a reconciliation makes.
pub open spec fn reconciled(
    near: Seq<u8>,
    level: nat,
    view: PageView,
    parent: PageHandle,
    moments: Seq<Moment>,
    turns: Seq<ReconcileTurn>,
) -> Change {
    let draft: Draft = turns[2].next->Run_1->BuildPage_0;
    let header = chained_header(parent.page.epoch, parent.page, parent.addr);
    Change::Tell {
        near,
        level,
        parent_id: parent.id,
        child_id: view.at.id,
        delta: built_page(draft, header, moments[2].event->Built_size),
    }
}

/// What a reconciliation has built once its page has landed.
proof fn lemma_reconcile_lands(
    pages: Map<u64, Page>,
    root: Page,
    view: PageView,
    parent: PageHandle,
    moments: Seq<Moment>,
    turns: Seq<ReconcileTurn>,
)
    requires
        is_reconcile_run(pages, root, view, parent, moments, turns),
        moments.len() > 3,
        moments[3].event is Updated,
    ensures
        turns[2].next matches Next::Run(_, Action::BuildPage(draft)) && {
            let (split_key, right) = split_delta(pages[view.at.addr]);
            &&& draft.tier is Inner
            &&& draft.kind is Data
            &&& draft.items matches Items::Indexes(delta) && is_reconcile_delta(
                delta@,
                view.range->0@,
                Index { id: view.at.id, epoch: view.at.page.epoch },
                split_key,
                right,
            )
        },
        moments[2].event is Built,
{
    assert(is_reconcile_step(pages, root, moments, turns, 0));
    assert(turns[0].next matches Next::Run(op, _) && op.stage is Read);
    assert(is_reconcile_step(pages, root, moments, turns, 1));
    assert(turns[1].next matches Next::Run(op, _) && op.stage is Begin);
    assert(is_reconcile_step(pages, root, moments, turns, 2));
    assert(turns[2].next matches Next::Run(op, _) && op.stage is Build);
    assert(is_reconcile_step(pages, root, moments, turns, 3));
}

/// However the tree has changed since the search met the split: where the page of a
/// reconciliation lands, the parent still refers to the page that was split and has not been
/// told of it, so that the reconciliation is a change that can be made. The parent's id must
/// have led to the same page since it was seen, which the exchange of its address makes sure
/// of.
pub proof fn law_whole_reconciliation_tells_the_parent(
    pages: Map<u64, Page>,
    root: Page,
    view: PageView,
    parent: PageView,
    moments: Seq<Moment>,
    turns: Seq<ReconcileTurn>,
    seen: Seq<Change>,
    looked_up: Seq<Change>,
    raw: Seq<u8>,
    level: nat,
    index: Index,
    range: RangeView,
)
    requires
        is_reconcile_run(pages, root, view, parent.at, moments, turns),
        moments.len() > 3,
        moments[3].event is Updated,
        is_found_split(
            pages,
            root,
            seen,
            looked_up,
            raw,
            level,
            parent,
            index,
            range,
            view,
        ),
        between(seen, looked_up, moments[0].changes),
        is_unmoved(seen, moments[3].changes, parent.at.id),
    ensures
        ({
            let (f, height) = grown(root, moments[3].changes);
            can_change(f, height, reconciled(raw, level, view, parent.at, moments, turns))
        }),
{
    let last = moments[3].changes;
    assert(is_reconcile_step(pages, root, moments, turns, 0));
    assert(is_reconcile_step(pages, root, moments, turns, 1));
    assert(is_reconcile_step(pages, root, moments, turns, 2));
    assert(is_reconcile_step(pages, root, moments, turns, 3));
    lemma_extends_transitive(looked_up, moments[0].changes, moments[1].changes);
    lemma_extends_transitive(looked_up, moments[1].changes, moments[2].changes);
    lemma_extends_transitive(looked_up, moments[2].changes, last);
    lemma_grown_before(root, looked_up, last);
    lemma_grown_tree(root, last);
    assert forall|i: int| seen.len() <= i < looked_up.len() implies !exchanges(
        #[trigger] looked_up[i],
        parent.at.id,
    ) by {
        assert(looked_up[i] == last.take(looked_up.len() as int)[i]);
        assert(last[i] == looked_up[i]);
    }
    lemma_pending_stays(root, seen, looked_up, raw, level, parent.at.id);
    lemma_pending_stays(root, looked_up, last, raw, level, parent.at.id);
    let (f, height) = grown(root, last);
    let page = pages[view.at.addr];
    assert(path_ok(f, height, raw, level));
    assert(page_ok(f.chains[view.at.id], f.places[view.at.id]));
    assert(page == f.head(view.at.id));
    lemma_reconcile_lands(pages, root, view, parent.at, moments, turns);
    let draft: Draft = turns[2].next->Run_1->BuildPage_0;
    law_reconciliation_builds_its_page(
        f,
        height,
        raw,
        level,
        view.at,
        parent,
        draft.items->Indexes_0,
        moments[2].event->Built_size,
    );
}

} // verus!
