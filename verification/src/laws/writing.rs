//! A write from its start to its end, while the tree changes under it.

use crate::get::{value_view, GetOp, GetTurn};
use crate::laws::effects::built_page;
use crate::laws::exchange::is_newest;
use crate::laws::forest::{found, law_root_is_responsible_for_all_keys, lemma_visited, page_ok,
    path_ok};
use crate::laws::history::{can_change, can_grow, grown, is_safe, Change};
use crate::laws::outcome::law_write_succeeds_once_its_page_is_in_place;
use crate::laws::pursuit::{is_leaf_at, is_on_its_way, is_referred, is_search_turn,
    law_search_keeps_on_its_way, lemma_search_begins};
use crate::laws::reading::{is_get_run, is_untouched, law_whole_read_returns_the_last_write,
    lemma_get_run, lemma_part_untouched, lemma_untouched};
use crate::laws::runs::{aims, answers, between, extends, is_exchange, lemma_extends_transitive,
    lemma_grown_before, lemma_grown_tree, lemma_growth_keeps_aim, lemma_reference_aims, Moment};
use crate::page::{Draft, Index, Key, Page, PageHandle, PageView, RangeView, Value, ROOT_ID};
use crate::search::FindLeafTurn;
use crate::turn::{Action, Error, Next};
use crate::write::{delta_header, is_write_draft, update_action, write_begins, WriteOp, WriteStage,
    WriteTurn};
use std::time::Duration;
use vstd::prelude::*;

verus! {

/// The page is a leaf page, and it is responsible for the key as long as the id leads to it.
pub open spec fn is_target(
    pages: Map<u64, Page>,
    root: Page,
    last: Seq<Change>,
    raw: Seq<u8>,
    at: PageHandle,
) -> bool {
    let (f, height) = grown(root, last);
    let index = Index { id: at.id, epoch: at.page.epoch };
    &&& at.page == pages[at.addr].info
    &&& at.id == ROOT_ID ==> at.page.tier is Leaf
    &&& at.id != ROOT_ID ==> exists|range: RangeView| #[trigger]
        aims(f, height, raw, 0, index, range)
}

/// What a turn of a write has come to.
pub open spec fn is_write_turn(
    pages: Map<u64, Page>,
    root: Page,
    first: Seq<Change>,
    last: Seq<Change>,
    key: Key,
    value: Value,
    turn: WriteTurn,
) -> bool {
    match turn.next {
        Next::Run(op, action) => {
            &&& op.key == key
            &&& op.value == value
            &&& match op.stage {
                WriteStage::Find { search, .. } => search.key@ == key.raw@ && is_on_its_way(
                    pages,
                    root,
                    first,
                    last,
                    search,
                    action,
                ),
                WriteStage::Split { at, .. } => is_target(pages, root, last, key.raw@, at),
                WriteStage::Begin { at, .. } => is_target(pages, root, last, key.raw@, at),
                WriteStage::Build { at, .. } => is_target(pages, root, last, key.raw@, at),
                WriteStage::Update { at, new_addr, .. } => {
                    &&& action == update_action(at, new_addr)
                    &&& is_target(pages, root, last, key.raw@, at)
                },
                WriteStage::Moved { at, addr, .. } => {
                    &&& action == Action::ReadPageInfo(addr)
                    &&& at.id != ROOT_ID
                    &&& is_target(pages, root, last, key.raw@, at)
                },
                WriteStage::Restructure(_) => true,
            }
        },
        _ => true,
    }
}

/// However many changes are made, the page stays responsible for the key as long as the id
/// leads to it.
proof fn lemma_target_later(
    pages: Map<u64, Page>,
    root: Page,
    a: Seq<Change>,
    b: Seq<Change>,
    raw: Seq<u8>,
    at: PageHandle,
)
    requires
        can_grow(root, b),
        extends(a, b),
        is_target(pages, root, a, raw, at),
    ensures
        is_target(pages, root, b, raw, at),
{
    if at.id != ROOT_ID {
        let (f, height) = grown(root, a);
        let index = Index { id: at.id, epoch: at.page.epoch };
        let range = choose|range: RangeView| #[trigger] aims(f, height, raw, 0, index, range);
        lemma_growth_keeps_aim(root, a, b, raw, 0, index, range);
    }
}

/// The leaf page that the search has come to is one to write to.
proof fn lemma_found_is_target(
    pages: Map<u64, Page>,
    root: Page,
    first: Seq<Change>,
    c: Seq<Change>,
    last: Seq<Change>,
    raw: Seq<u8>,
    view: PageView,
    parent: Option<PageView>,
)
    requires
        can_grow(root, last),
        between(first, c, last),
        is_leaf_at(pages, root, first, c, raw, view, parent),
    ensures
        is_target(pages, root, last, raw, view.at),
{
    let (f, height) = grown(root, c);
    lemma_grown_before(root, c, last);
    lemma_grown_tree(root, c);
    lemma_visited(f, height, raw, 0);
    let chain = f.chains[view.at.id];
    assert(page_ok(chain, f.places[view.at.id]));
    assert(pages[view.at.addr] == chain[0]);
    match parent {
        None => {},
        Some(parent) => {
            let index = Index { id: view.at.id, epoch: view.at.page.epoch };
            let range = view.range->0@;
            let above = choose|above: Seq<Change>|
                between(first, above, c) && #[trigger] is_referred(
                    pages,
                    root,
                    above,
                    raw,
                    0,
                    parent,
                    index,
                    range,
                );
            lemma_extends_transitive(above, c, last);
            lemma_grown_before(root, above, last);
            lemma_grown_tree(root, above);
            lemma_reference_aims(grown(root, above).0, grown(root, above).1, raw, 0);
            lemma_growth_keeps_aim(root, above, last, raw, 0, index, range);
        },
    }
}

/// A write that begins searches for the leaf page.
proof fn lemma_write_begins(
    pages: Map<u64, Page>,
    root: Page,
    first: Seq<Change>,
    last: Seq<Change>,
    key: Key,
    value: Value,
    turn: WriteTurn,
)
    requires
        turn.next matches Next::Run(op, _) ==> write_begins(
            key,
            value,
            op.start_at,
            op.stage->before,
            turn.notes@,
            turn,
        ),
    ensures
        is_write_turn(pages, root, first, last, key, value, turn),
{
    match turn.next {
        Next::Run(op, action) => match op.stage {
            WriteStage::Find { search, .. } => {
                lemma_search_begins(pages, root, first, last, search, key.raw@);
            },
            _ => {},
        },
        _ => {},
    }
}

/// Once the leaf page has been found, it is divided or written to.
proof fn lemma_leaf_is_found(
    pages: Map<u64, Page>,
    root: Page,
    first: Seq<Change>,
    op: WriteOp,
    moment: Moment,
    search: FindLeafTurn,
    turn: WriteTurn,
)
    requires
        can_grow(root, moment.changes),
        op.stage is Find,
        op.goes_on_with_search(moment.options, op.stage->before, moment.now, search, turn),
        is_search_turn(pages, root, first, moment.changes, op.key.raw@, search),
    ensures
        is_write_turn(pages, root, first, moment.changes, op.key, op.value, turn),
{
    let last = moment.changes;
    match search.next {
        Next::Done(Ok((view, parent))) => {
            let c = choose|c: Seq<Change>|
                between(first, c, last) && #[trigger] is_leaf_at(
                    pages,
                    root,
                    first,
                    c,
                    op.key.raw@,
                    view,
                    parent,
                );
            lemma_found_is_target(pages, root, first, c, last, op.key.raw@, view, parent);
            match turn.next {
                Next::Run(next, _) => {
                    if next.stage is Find {
                        lemma_write_begins(pages, root, first, last, op.key, op.value, turn);
                    }
                },
                _ => {},
            }
        },
        Next::Done(Err(_)) => {
            lemma_write_begins(pages, root, first, last, op.key, op.value, turn);
        },
        _ => {},
    }
}

/// A step of a write keeps to what a write comes to.
proof fn lemma_write_step(
    pages: Map<u64, Page>,
    root: Page,
    first: Seq<Change>,
    before: Seq<Change>,
    op: WriteOp,
    action: Action,
    given: WriteTurn,
    moment: Moment,
    turn: WriteTurn,
)
    requires
        can_grow(root, moment.changes),
        extends(first, moment.changes),
        extends(before, moment.changes),
        given.next == Next::<WriteOp, Result<(), Error>>::Run(op, action),
        is_write_turn(pages, root, first, before, op.key, op.value, given),
        answers(pages, grown(root, moment.changes).0, action, moment.event),
        op.steps_to(moment.options, moment.safe_lsn, moment.now, moment.event, turn),
    ensures
        is_write_turn(pages, root, first, moment.changes, op.key, op.value, turn),
{
    let last = moment.changes;
    let raw = op.key.raw@;
    match op.stage {
        WriteStage::Find { search, before: from } => {
            let searched = choose|searched: FindLeafTurn| #[trigger]
                search.steps_to(
                    moment.options,
                    moment.safe_lsn,
                    moment.now,
                    moment.event,
                    searched,
                ) && op.goes_on_with_search(moment.options, from, moment.now, searched, turn);
            law_search_keeps_on_its_way(
                pages,
                root,
                first,
                before,
                search,
                action,
                moment,
                searched,
            );
            lemma_leaf_is_found(pages, root, first, op, moment, searched, turn);
        },
        WriteStage::Restructure(_) => {
            law_write_succeeds_once_its_page_is_in_place(
                op,
                moment.options,
                moment.safe_lsn,
                moment.now,
                moment.event,
                turn,
            );
        },
        WriteStage::Split { at, .. } => {
            lemma_target_later(pages, root, before, last, raw, at);
            if turn.next is Run && turn.next->Run_0.stage is Find {
                lemma_write_begins(pages, root, first, last, op.key, op.value, turn);
            }
        },
        WriteStage::Begin { at, .. } => {
            lemma_target_later(pages, root, before, last, raw, at);
        },
        WriteStage::Build { at, .. } => {
            lemma_target_later(pages, root, before, last, raw, at);
            if turn.next is Run && turn.next->Run_0.stage is Find {
                lemma_write_begins(pages, root, first, last, op.key, op.value, turn);
            }
        },
        WriteStage::Update { at, .. } => {
            lemma_target_later(pages, root, before, last, raw, at);
            if turn.next is Run && turn.next->Run_0.stage is Find {
                lemma_write_begins(pages, root, first, last, op.key, op.value, turn);
            }
        },
        WriteStage::Moved { at, .. } => {
            lemma_target_later(pages, root, before, last, raw, at);
            if turn.next is Run && turn.next->Run_0.stage is Find {
                lemma_write_begins(pages, root, first, last, op.key, op.value, turn);
            }
        },
    }
}

/// The step is handed what came of the action that the turn before it asked for.
pub open spec fn is_write_step(
    pages: Map<u64, Page>,
    root: Page,
    moments: Seq<Moment>,
    turns: Seq<WriteTurn>,
    i: int,
) -> bool {
    let moment = moments[i];
    &&& can_grow(root, moment.changes)
    &&& i > 0 ==> extends(moments[i - 1].changes, moment.changes)
    &&& turns[i].next matches Next::Run(op, action)
    &&& answers(pages, grown(root, moment.changes).0, action, moment.event)
    &&& is_exchange(pages, grown(root, moment.changes).0, action, moment.event)
    &&& op.steps_to(
        moment.options,
        moment.safe_lsn,
        moment.now,
        moment.event,
        turns[i + 1],
    )
}

/// A run of a write: it starts, and goes on step by step. The tree changes as it may.
pub open spec fn is_write_run(
    pages: Map<u64, Page>,
    root: Page,
    key: Key,
    value: Value,
    start_at: Duration,
    moments: Seq<Moment>,
    turns: Seq<WriteTurn>,
) -> bool {
    &&& turns.len() == moments.len() + 1
    &&& write_begins(key, value, start_at, start_at, Seq::empty(), turns[0])
    &&& forall|i: int|
        0 <= i < moments.len() ==> #[trigger] is_write_step(pages, root, moments, turns, i)
}

proof fn lemma_write_run(
    pages: Map<u64, Page>,
    root: Page,
    key: Key,
    value: Value,
    start_at: Duration,
    moments: Seq<Moment>,
    turns: Seq<WriteTurn>,
    n: int,
)
    requires
        is_write_run(pages, root, key, value, start_at, moments, turns),
        0 < moments.len(),
        0 <= n <= moments.len(),
    ensures
        ({
            let first = moments[0].changes;
            let last = if n == 0 {
                first
            } else {
                moments[n - 1].changes
            };
            &&& extends(first, last)
            &&& is_write_turn(pages, root, first, last, key, value, turns[n])
        }),
    decreases n,
{
    let first = moments[0].changes;
    assert(first =~= first.take(first.len() as int));
    if n == 0 {
        lemma_write_begins(pages, root, first, first, key, value, turns[0]);
    } else {
        let moment = moments[n - 1];
        assert(is_write_step(pages, root, moments, turns, n - 1));
        lemma_write_run(pages, root, key, value, start_at, moments, turns, n - 1);
        let before = if n == 1 {
            first
        } else {
            moments[n - 2].changes
        };
        lemma_extends_transitive(first, before, moment.changes);
        match turns[n - 1].next {
            Next::Run(op, action) => {
                lemma_write_step(
                    pages,
                    root,
                    first,
                    before,
                    op,
                    action,
                    turns[n - 1],
                    moment,
                    turns[n],
                );
            },
            _ => {},
        }
    }
}

/// At the step the page of the write has been put in front of the leaf page.
pub open spec fn has_landed(moments: Seq<Moment>, turns: Seq<WriteTurn>, i: int) -> bool {
    &&& 0 <= i < moments.len()
    &&& moments[i].event is Updated
    &&& turns[i].next matches Next::Run(op, _) && op.stage is Update
}

/// The leaf page that the page of the write was put in front of.
pub open spec fn landed_at(turns: Seq<WriteTurn>, i: int) -> PageHandle {
    turns[i].next->Run_0.stage->Update_at
}

/// The change of the tree that the write makes by putting the page in front of the leaf page.
pub open spec fn written(
    turns: Seq<WriteTurn>,
    i: int,
    draft: Draft,
    key: Key,
    value: Value,
) -> Change {
    let at = landed_at(turns, i);
    let page = built_page(draft, delta_header(at), turns[i].next->Run_0.stage->Update_size);
    Change::Write { leaf_id: at.id, page, key, value }
}

/// However the tree has changed since the write began: where the page of a write lands, the
/// leaf page is responsible for its key, so that the write is a change that can be made. No
/// version of its key that is there may have a greater sequence number.
pub proof fn law_write_lands_where_its_key_belongs(
    pages: Map<u64, Page>,
    root: Page,
    key: Key,
    value: Value,
    start_at: Duration,
    moments: Seq<Moment>,
    turns: Seq<WriteTurn>,
    i: int,
    draft: Draft,
)
    requires
        is_write_run(pages, root, key, value, start_at, moments, turns),
        has_landed(moments, turns, i),
        is_write_draft(draft, key, value),
        ({
            let f = grown(root, moments[i].changes).0;
            is_newest(key, f.chains[landed_at(turns, i).id])
        }),
    ensures
        ({
            let (f, height) = grown(root, moments[i].changes);
            can_change(f, height, written(turns, i, draft, key, value))
        }),
{
    let (f, height) = grown(root, moments[i].changes);
    let raw = key.raw@;
    let at = landed_at(turns, i);
    let before = if i == 0 {
        moments[0].changes
    } else {
        moments[i - 1].changes
    };
    lemma_write_run(pages, root, key, value, start_at, moments, turns, i);
    assert(is_write_step(pages, root, moments, turns, i));
    assert(extends(before, moments[i].changes)) by {
        assert(before =~= before.take(before.len() as int));
    }
    lemma_target_later(pages, root, before, moments[i].changes, raw, at);
    lemma_grown_tree(root, moments[i].changes);
    assert(f.has(at.id));
    let chain = f.chains[at.id];
    assert(page_ok(chain, f.places[at.id]));
    assert(pages[at.addr] == chain[0]);
    assert(at.page == f.head(at.id).info);
    if at.id == ROOT_ID {
        law_root_is_responsible_for_all_keys(f, height, raw);
        lemma_visited(f, height, raw, height);
        assert(path_ok(f, height, raw, height));
        assert(f.places[ROOT_ID].level == 0);
    }
    assert(found(f, height, raw, 0, at.id));
}

/// After its page has landed a write only restructures the leaf page.
proof fn lemma_landed_once(
    pages: Map<u64, Page>,
    root: Page,
    key: Key,
    value: Value,
    start_at: Duration,
    moments: Seq<Moment>,
    turns: Seq<WriteTurn>,
    i: int,
    j: int,
)
    requires
        is_write_run(pages, root, key, value, start_at, moments, turns),
        has_landed(moments, turns, i),
        i < j <= moments.len(),
    ensures
        turns[j].next matches Next::Run(op, _) ==> op.stage is Restructure,
    decreases j,
{
    let moment = moments[j - 1];
    assert(is_write_step(pages, root, moments, turns, j - 1));
    match turns[j - 1].next {
        Next::Run(op, _) => {
            if j - 1 > i {
                lemma_landed_once(
                    pages,
                    root,
                    key,
                    value,
                    start_at,
                    moments,
                    turns,
                    i,
                    j - 1,
                );
            }
            law_write_succeeds_once_its_page_is_in_place(
                op,
                moment.options,
                moment.safe_lsn,
                moment.now,
                moment.event,
                turns[j],
            );
        },
        _ => {},
    }
}

/// A write that restructures has landed, and so has one that is done.
proof fn lemma_has_landed(
    pages: Map<u64, Page>,
    root: Page,
    key: Key,
    value: Value,
    start_at: Duration,
    moments: Seq<Moment>,
    turns: Seq<WriteTurn>,
    n: int,
)
    requires
        is_write_run(pages, root, key, value, start_at, moments, turns),
        0 <= n <= moments.len(),
        match turns[n].next {
            Next::Run(op, _) => op.stage is Restructure,
            Next::Done(result) => result is Ok,
            Next::Halt(_) => false,
        },
    ensures
        exists|i: int| #[trigger] has_landed(moments, turns, i),
    decreases n,
{
    if n > 0 {
        let moment = moments[n - 1];
        assert(is_write_step(pages, root, moments, turns, n - 1));
        match turns[n - 1].next {
            Next::Run(op, _) => {
                law_write_succeeds_once_its_page_is_in_place(
                    op,
                    moment.options,
                    moment.safe_lsn,
                    moment.now,
                    moment.event,
                    turns[n],
                );
                if op.stage is Restructure {
                    lemma_has_landed(
                        pages,
                        root,
                        key,
                        value,
                        start_at,
                        moments,
                        turns,
                        n - 1,
                    );
                } else {
                    assert(has_landed(moments, turns, n - 1));
                }
            },
            _ => {},
        }
    }
}

/// A whole write that succeeds has landed, and just once, however often it began again.
pub proof fn law_whole_write_lands_once(
    pages: Map<u64, Page>,
    root: Page,
    key: Key,
    value: Value,
    start_at: Duration,
    moments: Seq<Moment>,
    turns: Seq<WriteTurn>,
)
    requires
        is_write_run(pages, root, key, value, start_at, moments, turns),
        turns.last().next == Next::<WriteOp, Result<(), Error>>::Done(Ok(())),
    ensures
        exists|i: int| #[trigger]
            has_landed(moments, turns, i) && forall|j: int|
                i != j ==> !(#[trigger] has_landed(moments, turns, j)),
{
    let n = moments.len() as int;
    lemma_has_landed(pages, root, key, value, start_at, moments, turns, n);
    let i = choose|i: int| #[trigger] has_landed(moments, turns, i);
    assert forall|j: int| i != j implies !(#[trigger] has_landed(moments, turns, j)) by {
        if has_landed(moments, turns, j) {
            if i < j {
                lemma_landed_once(pages, root, key, value, start_at, moments, turns, i, j);
            } else {
                lemma_landed_once(pages, root, key, value, start_at, moments, turns, j, i);
            }
        }
    }
}

/// A whole read that begins after a write has landed returns what was written, unless a
/// write that came later is one that the reader may see too.
pub proof fn law_whole_read_returns_what_was_written(
    pages: Map<u64, Page>,
    root: Page,
    key: Key,
    value: Value,
    start_at: Duration,
    moments: Seq<Moment>,
    turns: Seq<WriteTurn>,
    i: int,
    draft: Draft,
    read_pages: Map<u64, Page>,
    read_key: Key,
    read_start_at: Duration,
    read_moments: Seq<Moment>,
    read_turns: Seq<GetTurn>,
    result: Option<Vec<u8>>,
)
    requires
        is_write_run(pages, root, key, value, start_at, moments, turns),
        has_landed(moments, turns, i),
        is_get_run(
            read_pages,
            root,
            read_key,
            read_start_at,
            read_moments,
            read_turns,
        ),
        read_turns.last().next == Next::<GetOp, Result<Option<Vec<u8>>, Error>>::Done(
            Ok(result),
        ),
        read_key.raw@ == key.raw@,
        key.lsn <= read_key.lsn,
        is_safe(read_moments.last().changes, read_key.lsn),
        ({
            let after = moments[i].changes.push(written(turns, i, draft, key, value));
            &&& extends(after, read_moments[0].changes)
            &&& is_untouched(after, read_moments.last().changes, key.raw@, read_key.lsn)
        }),
    ensures
        value_view(result) == value.content(),
{
    let after = moments[i].changes.push(written(turns, i, draft, key, value));
    let first = read_moments[0].changes;
    let last = read_moments.last().changes;
    let raw = key.raw@;
    let n = read_moments.len() as int;
    assert(n > 0);
    lemma_get_run(read_pages, root, read_key, read_start_at, read_moments, read_turns, n);
    assert(read_moments[n - 1].changes == last);
    assert(last =~= last.take(last.len() as int));
    lemma_part_untouched(after, first, last, last, raw, read_key.lsn);
    law_whole_read_returns_the_last_write(
        read_pages,
        root,
        read_key,
        read_start_at,
        read_moments,
        read_turns,
        result,
    );
    lemma_untouched(after, first, last, raw, read_key.lsn);
    assert(after.drop_last() =~= moments[i].changes);
}

} // verus!
