//! What a search and a read come to while the pages of the tree stay as they are.

use crate::get::{value_view, GetOp};
use crate::laws::forest::{found, law_root_is_responsible_for_all_keys, lemma_child_of,
    lemma_visited, page_ok, path_ok, read, refer, split_is_pending, tree_ok, visit, Forest};
use crate::lookup::{find_child, find_value, page_child, page_value};
use crate::page::{Page, PageHandle, PageView};
use crate::reconcile::{reconcile_starts, ReconcileTurn};
use crate::search::{goes_on_with_reconciliation, handle_of, is_at_root, FindLeafOp, FindLeafTurn,
    FindStage};
use crate::get::GetTurn;
use crate::tree::Options;
use crate::turn::{Action, CacheOption, Event, Next};
use std::time::Duration;
use vstd::prelude::*;

verus! {

/// The view is of the page that the search for the key comes to at the level.
pub open spec fn is_view_of(
    f: Forest,
    height: nat,
    raw: Seq<u8>,
    level: nat,
    view: PageView,
) -> bool {
    &&& found(f, height, raw, level, view.at.id)
    &&& view.at.page == f.head(view.at.id).info
    &&& view.range matches Some(range) && range@ == refer(f, height, raw, level).1
}

/// The search has come down to the level on the path of its key.
pub open spec fn is_on_path(f: Forest, height: nat, op: FindLeafOp, level: nat) -> bool {
    &&& level <= height
    &&& match op.parent {
        None => level == height,
        Some(parent) => level < height && is_view_of(f, height, op.key@, level + 1, parent),
    }
    &&& match op.stage {
        FindStage::Addr { index, range } => (index, range@) == refer(f, height, op.key@, level),
        FindStage::Info { index, range, .. } => (index, range@) == refer(
            f,
            height,
            op.key@,
            level,
        ),
        FindStage::Child { view } => level > 0 && is_view_of(f, height, op.key@, level, view),
        FindStage::Reconcile(_) => false,
    }
}

/// Every search begins on the path of its key.
pub proof fn law_search_begins_on_its_path(f: Forest, height: nat, op: FindLeafOp, raw: Seq<u8>)
    requires
        is_at_root(op, raw),
    ensures
        op.key@ == raw,
        is_on_path(f, height, op, height),
{
}

/// A search that looks up the address of a page stays on its path.
pub proof fn law_search_looks_up_its_path(
    f: Forest,
    height: nat,
    op: FindLeafOp,
    level: nat,
    options: Options,
    safe_lsn: u64,
    now: Duration,
    addr: u64,
    turn: FindLeafTurn,
)
    requires
        is_on_path(f, height, op, level),
        op.stage is Addr,
        op.steps_to(options, safe_lsn, now, Event::Addr(addr), turn),
    ensures
        turn.next matches Next::Run(next, action) && {
            &&& next.stage is Info
            &&& action == Action::ReadPageInfo(addr)
            &&& next.key == op.key
            &&& is_on_path(f, height, next, level)
        },
{
}

/// A search that reads the header of a page on its path meets a conflict only below the root,
/// where the page has been split and its parent has not been told; else it ends at the leaf page that
/// is responsible for the key, or searches the inner page for the child.
pub proof fn law_search_arrives_on_its_path(
    f: Forest,
    height: nat,
    op: FindLeafOp,
    level: nat,
    options: Options,
    safe_lsn: u64,
    now: Duration,
    turn: FindLeafTurn,
)
    requires
        tree_ok(f, height),
        is_on_path(f, height, op, level),
        op.stage is Info,
        op.stage->addr != 0,
        op.steps_to(
            options,
            safe_lsn,
            now,
            Event::Info(f.head(op.stage->Info_index.id).info),
            turn,
        ),
    ensures
        ({
            let (index, range) = refer(f, height, op.key@, level);
            if f.head(index.id).info.epoch != index.epoch {
                &&& level < height
                &&& split_is_pending(f, index, range)
                &&& exists|view: PageView, reconciliation: ReconcileTurn|
                    #![trigger reconcile_starts(view, handle_of(op.parent), reconciliation)]
                    {
                        &&& view.at.id == index.id
                        &&& view.at.page == f.head(index.id).info
                        &&& view.range matches Some(r) && r@ == range
                        &&& reconcile_starts(view, handle_of(op.parent), reconciliation)
                        &&& goes_on_with_reconciliation(op.key, reconciliation, turn)
                    }
            } else if level == 0 {
                &&& turn.next matches Next::Done(Ok((view, parent)))
                &&& parent == op.parent
                &&& is_view_of(f, height, op.key@, 0, view)
                &&& view.at.addr == op.stage->addr
                &&& visit(f, height, op.key@, 0).0.id == view.at.id
            } else {
                &&& turn.next matches Next::Run(next, action)
                &&& next.key == op.key
                &&& next.stage is Child
                &&& next.stage->view.at.addr == op.stage->addr
                &&& is_on_path(f, height, next, level)
                &&& action == Action::ReadPage(op.stage->addr, CacheOption::Default)
            }
        }),
{
    let (index, range) = refer(f, height, op.key@, level);
    assert(path_ok(f, height, op.key@, level));
    lemma_visited(f, height, op.key@, level);
    law_root_is_responsible_for_all_keys(f, height, op.key@);
    let chain = f.chains[index.id];
    assert(page_ok(chain, f.places[index.id]));
    assert(chain[0] == f.head(index.id));
    match op.stage {
        FindStage::Info { index: i, range: r, addr } => {
            if f.head(index.id).info.epoch != index.epoch {
                let view = PageView {
                    at: PageHandle { id: i.id, addr, page: f.head(index.id).info },
                    range: Some(r),
                };
                let reconciliation = choose|reconciliation: ReconcileTurn| #[trigger]
                    reconcile_starts(view, handle_of(op.parent), reconciliation)
                        && goes_on_with_reconciliation(op.key, reconciliation, turn);
                assert(reconcile_starts(view, handle_of(op.parent), reconciliation));
            }
        },
        _ => {},
    }
}

/// Pages that name no child for a key leave the search to the pages behind them.
pub proof fn lemma_find_child_behind(chain: Seq<Page>, raw: Seq<u8>, j: int)
    requires
        0 <= j <= chain.len(),
        forall|k: int| 0 <= k < j ==> page_child(#[trigger] chain[k], raw) is None,
    ensures
        find_child(chain, raw) == find_child(chain.skip(j), raw),
    decreases j,
{
    if j == 0 {
        assert(chain.skip(0) =~= chain);
    } else {
        lemma_find_child_behind(chain, raw, j - 1);
        let behind = chain.skip(j - 1);
        assert(behind[0] == chain[j - 1]);
        assert(behind.drop_first() =~= chain.skip(j));
    }
}

/// A search that is handed the pages of an inner page on its path, newest first, finds the
/// next page on its path in one of them.
pub proof fn law_search_descends_on_its_path(
    f: Forest,
    height: nat,
    op: FindLeafOp,
    level: nat,
    options: Options,
    safe_lsn: u64,
    now: Duration,
    j: int,
    turn: FindLeafTurn,
)
    requires
        tree_ok(f, height),
        is_on_path(f, height, op, level),
        op.stage is Child,
        ({
            let chain = f.chains[op.stage->view.at.id];
            &&& 0 <= j < chain.len()
            &&& forall|k: int| 0 <= k < j ==> page_child(#[trigger] chain[k], op.key@) is None
            &&& op.steps_to(options, safe_lsn, now, Event::Page(chain[j]), turn)
        }),
    ensures
        ({
            let chain = f.chains[op.stage->view.at.id];
            if page_child(chain[j], op.key@) is Some {
                &&& turn.next matches Next::Run(next, action)
                &&& next.key == op.key
                &&& next.stage is Addr
                &&& is_on_path(f, height, next, (level - 1) as nat)
                &&& action == Action::PageAddr(refer(f, height, op.key@, (level - 1) as nat).0.id)
            } else {
                &&& j + 1 < chain.len()
                &&& chain[j].info.chain_next != 0 ==> turn.asks(
                    op,
                    Action::ReadPage(chain[j].info.chain_next, CacheOption::Default),
                )
            }
        }),
{
    let view = op.stage->view;
    let chain = f.chains[view.at.id];
    let raw = op.key@;
    assert(path_ok(f, height, raw, level));
    lemma_visited(f, height, raw, level);
    lemma_child_of(chain, f.places[view.at.id], raw);
    lemma_find_child_behind(chain, raw, j);
    assert(chain.skip(j)[0] == chain[j]);
    if page_child(chain[j], raw) is None && j + 1 == chain.len() {
        assert(chain.skip(j).drop_first() =~= Seq::<Page>::empty());
        assert(find_child(Seq::<Page>::empty(), raw) is None);
    }
}

/// Pages that say nothing of a key leave the read to the pages behind them.
pub proof fn lemma_find_value_behind(chain: Seq<Page>, raw: Seq<u8>, lsn: u64, j: int)
    requires
        0 <= j <= chain.len(),
        forall|k: int| 0 <= k < j ==> page_value(#[trigger] chain[k], raw, lsn) is None,
    ensures
        find_value(chain, raw, lsn) == find_value(chain.skip(j), raw, lsn),
    decreases j,
{
    if j == 0 {
        assert(chain.skip(0) =~= chain);
    } else {
        lemma_find_value_behind(chain, raw, lsn, j - 1);
        let behind = chain.skip(j - 1);
        assert(behind[0] == chain[j - 1]);
        assert(behind.drop_first() =~= chain.skip(j));
    }
}

/// A read that is handed the pages of the leaf page that is responsible for its key, newest
/// first, ends with what the tree holds for the key.
pub proof fn law_read_returns_what_the_tree_holds(
    f: Forest,
    height: nat,
    op: GetOp,
    options: Options,
    safe_lsn: u64,
    now: Duration,
    j: int,
    turn: GetTurn,
)
    requires
        op.stage is Walk,
        ({
            let chain = f.chains[visit(f, height, op.key.raw@, 0).0.id];
            &&& 0 <= j < chain.len()
            &&& chain[j].info.chain_next == 0 <==> j + 1 == chain.len()
            &&& forall|k: int|
                0 <= k < j ==> page_value(#[trigger] chain[k], op.key.raw@, op.key.lsn) is None
            &&& op.steps_to(options, safe_lsn, now, Event::Page(chain[j]), turn)
        }),
    ensures
        ({
            let chain = f.chains[visit(f, height, op.key.raw@, 0).0.id];
            if page_value(chain[j], op.key.raw@, op.key.lsn) is Some || j + 1 == chain.len() {
                &&& turn.next matches Next::Done(Ok(value))
                &&& value_view(value) == read(f, height, op.key.raw@, op.key.lsn)
            } else {
                turn.asks(op, Action::ReadPage(chain[j].info.chain_next, CacheOption::Default))
            }
        }),
{
    let raw = op.key.raw@;
    let chain = f.chains[visit(f, height, raw, 0).0.id];
    lemma_find_value_behind(chain, raw, op.key.lsn, j);
    assert(chain.skip(j)[0] == chain[j]);
    if j + 1 == chain.len() {
        assert(chain.skip(j).drop_first() =~= Seq::<Page>::empty());
        assert(find_value(Seq::<Page>::empty(), raw, op.key.lsn) is None);
    }
}

} // verus!
