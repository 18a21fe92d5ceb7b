//! What is read from a tree after any number of changes.

use crate::consolidate::Collected;
use crate::init::is_empty_leaf;
use crate::laws::delta::draft_of;
use crate::laws::exchange::{consolidates_part, exchanged, is_newest,
    law_exchange_keeps_searches, law_inner_consolidation_changes_no_read,
    law_leaf_consolidation_changes_no_read, law_write_changes_its_key_only,
    lemma_consolidated_inner_is_exchangeable, lemma_consolidated_leaf_is_exchangeable,
    lemma_write_is_exchangeable};
use crate::laws::forest::{found, path_ok, read, tree_ok, Forest};
use crate::laws::growth::{law_parting_changes_no_read, law_parting_keeps_searches,
    law_telling_changes_no_read, law_telling_keeps_searches, parted, parts, tells, told};
use crate::laws::root::{first_forest, law_first_root_is_a_tree, law_new_root_changes_no_read,
    law_new_root_keeps_searches, raised, root_parts};
use crate::page::{Key, Page, Value, ROOT_ID};
use crate::write::is_write_draft;
use vstd::prelude::*;

verus! {

/// A change of the tree: what one successful exchange of a page's address does.
pub enum Change {
    /// A write puts its page in front of the leaf page.
    Write { leaf_id: u64, page: Page, key: Key, value: Value },
    /// A page below the root parts.
    Part { near: Seq<u8>, level: nat, page_id: u64, at: int, delta: Page, half_id: u64, half: Page },
    /// A parent is told that a child has parted.
    Tell { near: Seq<u8>, level: nat, parent_id: u64, child_id: u64, delta: Page },
    /// The root parts.
    Raise { at: int, left_id: u64, left: Page, right_id: u64, right: Page, root: Page },
    /// A page takes the place of the newest pages of a leaf chain.
    ConsolidateLeaf {
        leaf_id: u64,
        prefix: Seq<Page>,
        rest: Seq<Page>,
        page: Page,
        pages: Collected,
        safe_lsn: u64,
    },
    /// A page takes the place of an inner chain.
    ConsolidateInner { inner_id: u64, page: Page, pages: Collected, safe_lsn: u64 },
}

/// The change can be made to the tree.
pub open spec fn can_change(f: Forest, height: nat, change: Change) -> bool {
    match change {
        Change::Write { leaf_id, page, key, value } => {
            &&& found(f, height, key.raw@, 0, leaf_id)
            &&& is_newest(key, f.chains[leaf_id])
            &&& is_write_draft(draft_of(page), key, value)
            &&& page.info.epoch == f.head(leaf_id).info.epoch
        },
        Change::Part { near, level, page_id, at, delta, half_id, half } => parts(
            f,
            height,
            near,
            level,
            page_id,
            at,
            delta,
            half_id,
            half,
        ),
        Change::Tell { near, level, parent_id, child_id, delta } => tells(
            f,
            height,
            near,
            level,
            parent_id,
            child_id,
            delta,
        ),
        Change::Raise { at, left_id, left, right_id, right, root } => root_parts(
            f,
            height,
            at,
            left_id,
            left,
            right_id,
            right,
            root,
        ),
        Change::ConsolidateLeaf { leaf_id, prefix, rest, page, pages, safe_lsn } => {
            &&& f.has(leaf_id)
            &&& !f.pending(leaf_id)
            &&& f.places[leaf_id].level == 0
            &&& f.chains[leaf_id] == prefix + rest
            &&& pages is Values
            &&& consolidates_part(prefix, rest, page, pages, safe_lsn)
        },
        Change::ConsolidateInner { inner_id, page, pages, safe_lsn } => {
            &&& f.has(inner_id)
            &&& !f.pending(inner_id)
            &&& f.places[inner_id].level > 0
            &&& pages is Indexes
            &&& consolidates_part(f.chains[inner_id], Seq::empty(), page, pages, safe_lsn)
        },
    }
}

/// The tree after the change, and its height.
pub open spec fn changed(f: Forest, height: nat, change: Change) -> (Forest, nat) {
    match change {
        Change::Write { leaf_id, page, .. } => (
            exchanged(f, leaf_id, seq![page] + f.chains[leaf_id]),
            height,
        ),
        Change::Part { page_id, delta, half_id, half, .. } => (
            parted(f, page_id, delta, half_id, half),
            height,
        ),
        Change::Tell { parent_id, child_id, delta, .. } => (
            told(f, parent_id, child_id, delta),
            height,
        ),
        Change::Raise { at, left_id, left, right_id, right, root } => (
            raised(f, height, f.head(ROOT_ID).items.raw(at), left_id, left, right_id, right, root),
            height + 1,
        ),
        Change::ConsolidateLeaf { leaf_id, rest, page, .. } => (
            exchanged(f, leaf_id, seq![page] + rest),
            height,
        ),
        Change::ConsolidateInner { inner_id, page, .. } => (
            exchanged(f, inner_id, seq![page]),
            height,
        ),
    }
}

/// The tree after the changes, and its height.
pub open spec fn grown(root: Page, changes: Seq<Change>) -> (Forest, nat)
    decreases changes.len(),
{
    if changes.len() == 0 {
        (first_forest(root), 0)
    } else {
        let (f, height) = grown(root, changes.drop_last());
        changed(f, height, changes.last())
    }
}

/// Each of the changes could be made when it was made.
pub open spec fn can_grow(root: Page, changes: Seq<Change>) -> bool
    decreases changes.len(),
{
    if changes.len() == 0 {
        is_empty_leaf(draft_of(root)) && root.info.epoch == 0
    } else {
        let (f, height) = grown(root, changes.drop_last());
        can_grow(root, changes.drop_last()) && can_change(f, height, changes.last())
    }
}

/// What the last write of the key that the reader may see has stored.
pub open spec fn last_written(changes: Seq<Change>, raw: Seq<u8>, lsn: u64) -> Option<Seq<u8>>
    decreases changes.len(),
{
    if changes.len() == 0 {
        None
    } else {
        match changes.last() {
            Change::Write { key, value, .. } => if key.raw@ == raw && key.lsn <= lsn {
                value.content()
            } else {
                last_written(changes.drop_last(), raw, lsn)
            },
            _ => last_written(changes.drop_last(), raw, lsn),
        }
    }
}

/// No consolidation was told that readers at `lsn` are gone.
pub open spec fn is_safe(changes: Seq<Change>, lsn: u64) -> bool {
    forall|i: int|
        0 <= i < changes.len() ==> ((#[trigger] changes[i]) matches Change::ConsolidateLeaf {
            safe_lsn,
            ..
        } ==> safe_lsn <= lsn)
}

/// A change keeps the tree. What a reader gets changes with a write of the key that the reader
/// may see, and with nothing else.
pub proof fn law_change_is_read(f: Forest, height: nat, change: Change, raw: Seq<u8>, lsn: u64)
    requires
        tree_ok(f, height),
        can_change(f, height, change),
        change matches Change::ConsolidateLeaf { safe_lsn, .. } ==> safe_lsn <= lsn,
    ensures
        ({
            let (g, after) = changed(f, height, change);
            &&& tree_ok(g, after)
            &&& read(g, after, raw, lsn) == match change {
                Change::Write { key, value, .. } => if key.raw@ == raw && key.lsn <= lsn {
                    value.content()
                } else {
                    read(f, height, raw, lsn)
                },
                _ => read(f, height, raw, lsn),
            }
        }),
{
    match change {
        Change::Write { leaf_id, page, key, value } => {
            law_write_changes_its_key_only(f, height, leaf_id, page, key, value, raw, lsn);
        },
        Change::Part { near, level, page_id, at, delta, half_id, half } => {
            law_parting_changes_no_read(
                f,
                height,
                near,
                level,
                page_id,
                at,
                delta,
                half_id,
                half,
                raw,
                lsn,
            );
        },
        Change::Tell { near, level, parent_id, child_id, delta } => {
            law_telling_changes_no_read(
                f,
                height,
                near,
                level,
                parent_id,
                child_id,
                delta,
                raw,
                lsn,
            );
        },
        Change::Raise { at, left_id, left, right_id, right, root: new } => {
            law_new_root_changes_no_read(
                f,
                height,
                at,
                left_id,
                left,
                right_id,
                right,
                new,
                raw,
                lsn,
            );
        },
        Change::ConsolidateLeaf { leaf_id, prefix, rest, page, pages, safe_lsn } => {
            law_leaf_consolidation_changes_no_read(
                f,
                height,
                leaf_id,
                prefix,
                rest,
                page,
                pages,
                safe_lsn,
                raw,
                lsn,
            );
        },
        Change::ConsolidateInner { inner_id, page, pages, safe_lsn } => {
            law_inner_consolidation_changes_no_read(
                f,
                height,
                inner_id,
                page,
                pages,
                safe_lsn,
                raw,
                lsn,
            );
        },
    }
}

/// A change keeps the tree.
pub proof fn lemma_change_keeps_tree(f: Forest, height: nat, change: Change)
    requires
        tree_ok(f, height),
        can_change(f, height, change),
    ensures
        ({
            let (g, after) = changed(f, height, change);
            tree_ok(g, after)
        }),
{
    law_change_is_read(f, height, change, Seq::empty(), u64::MAX);
}

/// Whatever has been written, split, reconciled and consolidated: the pages form a tree, and
/// a reader gets what the last write of the key has stored that it may see.
pub proof fn law_reads_return_the_last_write(
    root: Page,
    changes: Seq<Change>,
    raw: Seq<u8>,
    lsn: u64,
)
    requires
        can_grow(root, changes),
        is_safe(changes, lsn),
    ensures
        ({
            let (f, height) = grown(root, changes);
            &&& tree_ok(f, height)
            &&& read(f, height, raw, lsn) == last_written(changes, raw, lsn)
        }),
    decreases changes.len(),
{
    if changes.len() == 0 {
        law_first_root_is_a_tree(root, raw, lsn);
    } else {
        let before = changes.drop_last();
        assert(is_safe(before, lsn)) by {
            assert forall|i: int| 0 <= i < before.len() implies ((#[trigger] before[i]) matches
                Change::ConsolidateLeaf { safe_lsn, .. } ==> safe_lsn <= lsn) by {
                assert(before[i] == changes[i]);
            }
        }
        law_reads_return_the_last_write(root, before, raw, lsn);
        let (f, height) = grown(root, before);
        assert(changes.last() == changes[changes.len() - 1]);
        law_change_is_read(f, height, changes.last(), raw, lsn);
    }
}

/// The epoch of a page guards a search: as long as it stays what the search has seen, the
/// search for the key still comes to the page without a conflict, whatever else has changed. Only
/// the root changes what it is without a change of its epoch.
pub proof fn law_epoch_guards_the_search(
    f: Forest,
    height: nat,
    change: Change,
    raw: Seq<u8>,
    level: nat,
    id: u64,
)
    requires
        tree_ok(f, height),
        can_change(f, height, change),
        level <= height,
        id != ROOT_ID,
        found(f, height, raw, level, id),
        changed(f, height, change).0.head(id).info.epoch == f.head(id).info.epoch,
    ensures
        ({
            let (g, after) = changed(f, height, change);
            found(g, after, raw, level, id)
        }),
{
    assert(path_ok(f, height, raw, level));
    match change {
        Change::Write { leaf_id, page, key, value } => {
            let chain = seq![page] + f.chains[leaf_id];
            lemma_write_is_exchangeable(f, height, leaf_id, page, key, value);
            law_exchange_keeps_searches(f, height, leaf_id, chain, raw, level);
        },
        Change::Part { near, level: at_level, page_id, at, delta, half_id, half } => {
            law_parting_keeps_searches(
                f,
                height,
                near,
                at_level,
                page_id,
                at,
                delta,
                half_id,
                half,
                raw,
                level,
            );
        },
        Change::Tell { near, level: at_level, parent_id, child_id, delta } => {
            law_telling_keeps_searches(
                f,
                height,
                near,
                at_level,
                parent_id,
                child_id,
                delta,
                raw,
                level,
            );
        },
        Change::Raise { at, left_id, left, right_id, right, root } => {
            law_new_root_keeps_searches(
                f,
                height,
                at,
                left_id,
                left,
                right_id,
                right,
                root,
                raw,
                level,
            );
        },
        Change::ConsolidateLeaf { leaf_id, prefix, rest, page, pages, safe_lsn } => {
            lemma_consolidated_leaf_is_exchangeable(
                f,
                height,
                leaf_id,
                prefix,
                rest,
                page,
                pages,
                safe_lsn,
            );
            law_exchange_keeps_searches(f, height, leaf_id, seq![page] + rest, raw, level);
        },
        Change::ConsolidateInner { inner_id, page, pages, safe_lsn } => {
            lemma_consolidated_inner_is_exchangeable(
                f,
                height,
                inner_id,
                page,
                pages,
                safe_lsn,
            );
            law_exchange_keeps_searches(f, height, inner_id, seq![page], raw, level);
        },
    }
}

} // verus!
