//! The pages that the operations have the store build, as they stand in the tree.

use crate::consolidate::{consolidated_header, is_consolidated, ConsolidationInfo};
use crate::laws::collection::describes;
use crate::laws::delta::draft_of;
use crate::laws::exchange::consolidates_part;
use crate::laws::forest::{found, refer, tree_ok, Forest};
use crate::laws::growth::{parts, tells};
use crate::laws::root::root_parts;
use crate::laws::searching::is_view_of;
use crate::lookup::split_delta;
use crate::merge::{is_part, limit_view, split_index};
use crate::page::{base_header, built_info, chained_header, Draft, Index, Items, Key, Page,
    PageHandle, PageHeader, PageInfo, PageKind, PageTier, PageView, Value, NAN_ID, ROOT_ID};
use crate::reconcile::is_reconcile_delta;
use crate::split::{data_draft, is_root_draft, is_split_draft};
use crate::tree::Options;
use crate::write::{delta_header, is_write_draft};
use vstd::prelude::*;

verus! {

/// The page that was built from the draft and given the header.
pub open spec fn built_page(draft: Draft, header: PageHeader, size: usize) -> Page {
    Page { info: built_info(draft.tier, draft.kind, header, size), items: draft.items }
}

/// The page that a write puts in front of the leaf page that its search came to holds the
/// write, keeps the epoch, and names the address of the page that it stands in front of.
pub proof fn law_write_builds_its_page(
    f: Forest,
    height: nat,
    view: PageView,
    draft: Draft,
    size: usize,
    key: Key,
    value: Value,
)
    requires
        is_view_of(f, height, key.raw@, 0, view),
        is_write_draft(draft, key, value),
    ensures
        ({
            let delta = built_page(draft, delta_header(view.at), size);
            &&& found(f, height, key.raw@, 0, view.at.id)
            &&& is_write_draft(draft_of(delta), key, value)
            &&& delta.info.epoch == f.head(view.at.id).info.epoch
            &&& delta.info.chain_next == view.at.addr
        }),
{
}

/// The pages that a split of a page below the root has built are the announcement and the
/// right half of that page.
pub proof fn law_split_builds_its_pages(
    f: Forest,
    height: nat,
    key: Seq<u8>,
    level: nat,
    at: PageHandle,
    i: int,
    draft: Draft,
    size: usize,
    right_id: u64,
    right_items: Items,
    right_size: usize,
)
    requires
        tree_ok(f, height),
        level < height,
        found(f, height, key, level, at.id),
        at.page == f.head(at.id).info,
        at.page.kind is Data,
        at.page.epoch < u64::MAX,
        f.chains[at.id] == seq![f.head(at.id)],
        split_index(f.head(at.id).items) == Some(i),
        right_id != NAN_ID,
        !f.has(right_id),
        is_part(
            right_items,
            f.head(at.id).items,
            i,
            f.head(at.id).items.count() as int,
        ),
        is_split_draft(draft, at.page.tier, f.head(at.id).items.raw(i), right_id),
    ensures
        ({
            let header = chained_header((at.page.epoch + 1) as u64, at.page, at.addr);
            let delta = built_page(draft, header, size);
            let right = built_page(
                data_draft(at.page.tier, right_items),
                base_header(),
                right_size,
            );
            &&& parts(f, height, key, level, at.id, i, delta, right_id, right)
            &&& delta.info.chain_next == at.addr
        }),
{
}

/// The pages that a split of the root has built are its two halves and the new root.
pub proof fn law_root_split_builds_its_pages(
    f: Forest,
    height: nat,
    i: int,
    left_id: u64,
    left_items: Items,
    left_size: usize,
    right_id: u64,
    right_items: Items,
    right_size: usize,
    draft: Draft,
    size: usize,
)
    requires
        tree_ok(f, height),
        f.head(ROOT_ID).info.kind is Data,
        f.chains[ROOT_ID] == seq![f.head(ROOT_ID)],
        split_index(f.head(ROOT_ID).items) == Some(i),
        left_id != NAN_ID,
        right_id != NAN_ID,
        left_id != right_id,
        !f.has(left_id),
        !f.has(right_id),
        is_part(left_items, f.head(ROOT_ID).items, 0, i),
        is_part(
            right_items,
            f.head(ROOT_ID).items,
            i,
            f.head(ROOT_ID).items.count() as int,
        ),
        is_root_draft(draft, left_id, f.head(ROOT_ID).items.raw(i), right_id),
    ensures
        ({
            let tier = f.head(ROOT_ID).info.tier;
            let left = built_page(data_draft(tier, left_items), base_header(), left_size);
            let right = built_page(data_draft(tier, right_items), base_header(), right_size);
            let root = built_page(draft, base_header(), size);
            root_parts(f, height, i, left_id, left, right_id, right, root)
        }),
{
}

/// The page that a reconciliation puts in front of the parent tells it of the split that the
/// search met.
pub proof fn law_reconciliation_builds_its_page(
    f: Forest,
    height: nat,
    key: Seq<u8>,
    level: nat,
    at: PageHandle,
    parent: PageView,
    delta: Vec<(Vec<u8>, Index)>,
    size: usize,
)
    requires
        tree_ok(f, height),
        level < height,
        is_view_of(f, height, key, level + 1, parent),
        refer(f, height, key, level).0.id == at.id,
        at.page == f.head(at.id).info,
        at.page.epoch != refer(f, height, key, level).0.epoch,
        is_reconcile_delta(
            delta@,
            refer(f, height, key, level).1,
            Index { id: at.id, epoch: at.page.epoch },
            split_delta(f.head(at.id)).0,
            split_delta(f.head(at.id)).1,
        ),
    ensures
        ({
            let draft = Draft {
                tier: PageTier::Inner,
                kind: PageKind::Data,
                items: Items::Indexes(delta),
            };
            let header = chained_header(parent.at.page.epoch, parent.at.page, parent.at.addr);
            let page = built_page(draft, header, size);
            &&& tells(f, height, key, level, parent.at.id, at.id, page)
            &&& page.info.chain_next == parent.at.addr
        }),
{
}

/// A consolidation leaves older pages alone only in leaf chains, and only where no split has
/// been met: what a split has given away is never left behind a page that does not tell of it.
pub proof fn law_partial_consolidation_meets_no_split(
    info: ConsolidationInfo,
    options: Options,
    page: PageInfo,
)
    requires
        info.enough_before(options, page),
    ensures
        info.range_limit is None,
        page.tier is Leaf,
        info.pages.count() >= 2,
{
}

/// The page that a consolidation has built takes the place of the pages that it collected.
pub proof fn law_consolidation_builds_its_page(
    prefix: Seq<Page>,
    rest: Seq<Page>,
    addrs: Seq<u64>,
    at: PageHandle,
    info: ConsolidationInfo,
    items: Items,
    safe_lsn: u64,
    size: usize,
)
    requires
        prefix.len() > 0,
        at.page == prefix[0].info,
        describes(info, at.page, addrs, prefix),
        info.range_limit is Some ==> rest.len() == 0,
        is_consolidated(items, info.pages, limit_view(info.range_limit), safe_lsn),
    ensures
        ({
            let draft = Draft { tier: at.page.tier, kind: PageKind::Data, items };
            let new = built_page(draft, consolidated_header(at, info.last_page), size);
            &&& consolidates_part(prefix, rest, new, info.pages, safe_lsn)
            &&& new.info.chain_next == prefix.last().info.chain_next
            &&& new.info.chain_len == prefix.last().info.chain_len
        }),
{
}

} // verus!
