//! Whole runs of operations, while the tree changes under them.

use crate::laws::forest::{found, path_ok, refer, tree_ok, visit, Forest};
use crate::laws::history::{can_change, can_grow, changed, grown, is_safe,
    law_epoch_guards_the_search, law_reads_return_the_last_write, lemma_change_keeps_tree, Change};
use crate::laws::store::is_chain;
use crate::page::{Index, Page, RangeView, ROOT_ID};
use crate::tree::Options;
use crate::turn::{Action, Event};
use std::time::Duration;
use vstd::prelude::*;

verus! {

/// A step of a run: what it was given, and the changes that had been made to the tree when
/// its event came about.
pub struct Moment {
    pub options: Options,
    pub safe_lsn: u64,
    pub now: Duration,
    pub event: Event,
    pub changes: Seq<Change>,
}

/// The second list of changes goes on where the first one ends.
pub open spec fn extends(a: Seq<Change>, b: Seq<Change>) -> bool {
    a.len() <= b.len() && a =~= b.take(a.len() as int)
}

/// The changes were made at a point between the two others.
pub open spec fn between(first: Seq<Change>, c: Seq<Change>, last: Seq<Change>) -> bool {
    extends(first, c) && extends(c, last)
}

pub proof fn lemma_extends_transitive(a: Seq<Change>, b: Seq<Change>, c: Seq<Change>)
    requires
        extends(a, b),
        extends(b, c),
    ensures
        extends(a, c),
{
    assert(a =~= c.take(a.len() as int)) by {
        assert forall|i: int| 0 <= i < a.len() implies a[i] == c[i] by {
            assert(a[i] == b.take(a.len() as int)[i]);
            assert(b[i] == c.take(b.len() as int)[i]);
        }
    }
}

/// What came of an action of a reader while the tree was in the given state. The pages of the
/// chains that ids lead to stay where they are while the reader may come to them. What came
/// of other actions shows in the changes alone.
pub open spec fn answers(pages: Map<u64, Page>, f: Forest, action: Action, event: Event) -> bool {
    event is Failed || match action {
        Action::PageAddr(id) => event matches Event::Addr(addr) && (f.has(id) ==> is_chain(
            pages,
            addr,
            f.chains[id],
        )),
        Action::ReadPageInfo(addr) => event == Event::Info(pages[addr].info),
        Action::ReadPage(addr, _) => event == Event::Page(pages[addr]),
        _ => true,
    }
}

/// An id is led to a new page only while it leads to the page that it is expected to lead to.
pub open spec fn is_exchange(
    pages: Map<u64, Page>,
    f: Forest,
    action: Action,
    event: Event,
) -> bool {
    match (action, event) {
        (Action::UpdatePage { id, old_addr, .. }, Event::Updated) => f.has(id) && is_chain(
            pages,
            old_addr,
            f.chains[id],
        ),
        (Action::ReplacePage { id, old_addr, .. }, Event::Replaced) => f.has(id) && is_chain(
            pages,
            old_addr,
            f.chains[id],
        ),
        _ => true,
    }
}

/// Whatever changes a tree has grown by, its pages form a tree.
pub proof fn lemma_grown_tree(root: Page, changes: Seq<Change>)
    requires
        can_grow(root, changes),
    ensures
        ({
            let (f, height) = grown(root, changes);
            tree_ok(f, height)
        }),
{
    assert(is_safe(changes, u64::MAX));
    law_reads_return_the_last_write(root, changes, Seq::empty(), u64::MAX);
}

/// What could grow could grow that far before.
pub proof fn lemma_grown_before(root: Page, a: Seq<Change>, b: Seq<Change>)
    requires
        can_grow(root, b),
        extends(a, b),
    ensures
        can_grow(root, a),
    decreases b.len(),
{
    if a.len() == b.len() {
        assert(a =~= b);
    } else {
        let rest = b.drop_last();
        assert(a =~= rest.take(a.len() as int)) by {
            assert(a =~= b.take(a.len() as int));
        }
        lemma_grown_before(root, a, rest);
    }
}

/// A reader that no consolidation has passed over was not passed over before.
pub proof fn lemma_safe_before(a: Seq<Change>, b: Seq<Change>, lsn: u64)
    requires
        is_safe(b, lsn),
        extends(a, b),
    ensures
        is_safe(a, lsn),
{
    assert forall|i: int| 0 <= i < a.len() implies ((#[trigger] a[i]) matches
        Change::ConsolidateLeaf { safe_lsn, .. } ==> safe_lsn <= lsn) by {
        assert(a[i] == b.take(a.len() as int)[i]);
        assert(b[i] == a[i]);
    }
}

/// The reference leads to the page that is responsible for the key at the level, with the
/// range, unless the epoch of the page has changed.
pub open spec fn aims(
    f: Forest,
    height: nat,
    raw: Seq<u8>,
    level: nat,
    index: Index,
    range: RangeView,
) -> bool {
    &&& level <= height
    &&& index.id != ROOT_ID
    &&& f.has(index.id)
    &&& index.epoch <= f.head(index.id).info.epoch
    &&& f.head(index.id).info.epoch == index.epoch ==> found(f, height, raw, level, index.id)
        && refer(f, height, raw, level).1 == range
}

/// A reference that a search takes from an inner page aims at the child.
pub proof fn lemma_reference_aims(f: Forest, height: nat, raw: Seq<u8>, level: nat)
    requires
        tree_ok(f, height),
        level < height,
    ensures
        ({
            let (index, range) = refer(f, height, raw, level);
            aims(f, height, raw, level, index, range)
        }),
{
    let (index, range) = refer(f, height, raw, level);
    assert(path_ok(f, height, raw, level));
    assert(path_ok(f, height, raw, height));
    if f.head(index.id).info.epoch == index.epoch {
        assert(visit(f, height, raw, level) == (index, range));
    }
}

/// No page is lost by a change, and no epoch goes back. A page whose epoch stays keeps its range.
pub proof fn lemma_change_keeps_pages(f: Forest, height: nat, change: Change, id: u64)
    requires
        tree_ok(f, height),
        can_change(f, height, change),
        f.has(id),
    ensures
        ({
            let g = changed(f, height, change).0;
            &&& g.has(id)
            &&& f.head(id).info.epoch <= g.head(id).info.epoch
            &&& g.head(id).info.epoch == f.head(id).info.epoch ==> g.places[id].range
                == f.places[id].range
        }),
{
    match change {
        Change::ConsolidateLeaf { leaf_id, prefix, rest, .. } => {
            assert(f.chains[leaf_id][0] == prefix[0]);
        },
        _ => {},
    }
}

proof fn lemma_change_keeps_aim(
    f: Forest,
    height: nat,
    change: Change,
    raw: Seq<u8>,
    level: nat,
    index: Index,
    range: RangeView,
)
    requires
        tree_ok(f, height),
        can_change(f, height, change),
        aims(f, height, raw, level, index, range),
    ensures
        ({
            let (g, after) = changed(f, height, change);
            aims(g, after, raw, level, index, range)
        }),
{
    let (g, after) = changed(f, height, change);
    lemma_change_keeps_pages(f, height, change, index.id);
    if g.head(index.id).info.epoch == index.epoch {
        law_epoch_guards_the_search(f, height, change, raw, level, index.id);
        lemma_change_keeps_tree(f, height, change);
        assert(path_ok(f, height, raw, level));
        assert(path_ok(g, after, raw, level));
    }
}

/// A reference aims at its page however many changes are made.
pub proof fn lemma_growth_keeps_aim(
    root: Page,
    a: Seq<Change>,
    b: Seq<Change>,
    raw: Seq<u8>,
    level: nat,
    index: Index,
    range: RangeView,
)
    requires
        can_grow(root, b),
        extends(a, b),
        aims(grown(root, a).0, grown(root, a).1, raw, level, index, range),
    ensures
        aims(grown(root, b).0, grown(root, b).1, raw, level, index, range),
    decreases b.len(),
{
    if a.len() == b.len() {
        assert(a =~= b);
    } else {
        let rest = b.drop_last();
        assert(a =~= rest.take(a.len() as int)) by {
            assert(a =~= b.take(a.len() as int));
        }
        lemma_growth_keeps_aim(root, a, rest, raw, level, index, range);
        let (f, height) = grown(root, rest);
        lemma_grown_tree(root, rest);
        lemma_change_keeps_aim(f, height, b.last(), raw, level, index, range);
    }
}

} // verus!
