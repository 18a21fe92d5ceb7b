//! A read from its start to its end, while the tree changes under it.

use crate::get::{get_begins, value_view, GetOp, GetStage, GetTurn};
use crate::laws::forest::{lemma_visited, read, visit};
use crate::laws::history::{can_grow, grown, is_safe, last_written,
    law_reads_return_the_last_write, Change};
use crate::laws::pursuit::{is_leaf_at, is_on_its_way, is_search_turn, law_search_keeps_on_its_way,
    lemma_search_begins};
use crate::laws::runs::{answers, between, extends, lemma_extends_transitive, lemma_grown_before,
    lemma_grown_tree, lemma_safe_before, Moment};
use crate::laws::searching::lemma_find_value_behind;
use crate::laws::store::is_chain;
use crate::lookup::{find_value, page_value};
use crate::page::{Key, Page};
use crate::search::FindLeafTurn;
use crate::turn::{Action, CacheOption, Error, Next};
use std::time::Duration;
use vstd::prelude::*;

verus! {

/// The read reads the page at `j` of the chain of the leaf page that was responsible for the
/// key when the changes had been made; the pages before it have said nothing.
pub open spec fn is_value_walk(
    pages: Map<u64, Page>,
    root: Page,
    c: Seq<Change>,
    key: Key,
    action: Action,
    j: int,
) -> bool {
    let (f, height) = grown(root, c);
    let chain = f.chains[visit(f, height, key.raw@, 0).0.id];
    &&& 0 <= j < chain.len()
    &&& forall|k: int| 0 <= k < j ==> page_value(#[trigger] chain[k], key.raw@, key.lsn) is None
    &&& action matches Action::ReadPage(addr, _) && is_chain(pages, addr, chain.skip(j))
}

/// The value is what the tree held for the key when the changes had been made.
pub open spec fn is_held(root: Page, c: Seq<Change>, key: Key, value: Option<Seq<u8>>) -> bool {
    let (f, height) = grown(root, c);
    value == read(f, height, key.raw@, key.lsn)
}

/// What a turn of a read of the key has come to.
pub open spec fn is_get_turn(
    pages: Map<u64, Page>,
    root: Page,
    first: Seq<Change>,
    last: Seq<Change>,
    key: Key,
    turn: GetTurn,
) -> bool {
    match turn.next {
        Next::Run(op, action) => op.key == key && match op.stage {
            GetStage::Find(search) => search.key@ == key.raw@ && is_on_its_way(
                pages,
                root,
                first,
                last,
                search,
                action,
            ),
            GetStage::Walk { .. } => exists|c: Seq<Change>, j: int|
                between(first, c, last) && #[trigger] is_value_walk(
                    pages,
                    root,
                    c,
                    key,
                    action,
                    j,
                ),
        },
        Next::Done(Ok(value)) => exists|c: Seq<Change>|
            between(first, c, last) && #[trigger] is_held(root, c, key, value_view(value)),
        _ => true,
    }
}

/// Once the leaf page has been found, its chain is walked.
proof fn lemma_leaf_found(
    pages: Map<u64, Page>,
    root: Page,
    first: Seq<Change>,
    op: GetOp,
    moment: Moment,
    search: FindLeafTurn,
    turn: GetTurn,
)
    requires
        can_grow(root, moment.changes),
        op.goes_on_with_search(moment.now, search, turn),
        search.next matches Next::Done(Ok(_)),
        is_search_turn(pages, root, first, moment.changes, op.key.raw@, search),
    ensures
        is_get_turn(pages, root, first, moment.changes, op.key, turn),
{
    let last = moment.changes;
    match search.next {
        Next::Done(Ok((view, parent))) => {
            let c = choose|c: Seq<Change>|
                between(first, c, last) && #[trigger] is_leaf_at(
                    pages,
                    root,
                    first,
                    c,
                    op.key.raw@,
                    view,
                    parent,
                );
            let (f, height) = grown(root, c);
            lemma_grown_before(root, c, last);
            lemma_grown_tree(root, c);
            lemma_visited(f, height, op.key.raw@, 0);
            let chain = f.chains[view.at.id];
            assert(chain.skip(0) =~= chain);
            assert(is_value_walk(
                pages,
                root,
                c,
                op.key,
                Action::ReadPage(view.at.addr, CacheOption::Default),
                0,
            ));
        },
        _ => {},
    }
}

/// A read that walks the chain of a leaf page ends with what the chain holds.
proof fn lemma_value_walk(
    pages: Map<u64, Page>,
    root: Page,
    first: Seq<Change>,
    before: Seq<Change>,
    op: GetOp,
    action: Action,
    given: GetTurn,
    moment: Moment,
    turn: GetTurn,
)
    requires
        can_grow(root, moment.changes),
        extends(before, moment.changes),
        op.stage is Walk,
        given.next == Next::<GetOp, Result<Option<Vec<u8>>, Error>>::Run(op, action),
        is_get_turn(pages, root, first, before, op.key, given),
        answers(pages, grown(root, moment.changes).0, action, moment.event),
        op.steps_to(moment.options, moment.safe_lsn, moment.now, moment.event, turn),
    ensures
        is_get_turn(pages, root, first, moment.changes, op.key, turn),
{
    let raw = op.key.raw@;
    let (c, j) = choose|c: Seq<Change>, j: int|
        between(first, c, before) && #[trigger] is_value_walk(pages, root, c, op.key, action, j);
    let (f, height) = grown(root, c);
    let chain = f.chains[visit(f, height, raw, 0).0.id];
    let addr = action->ReadPage_0;
    lemma_extends_transitive(c, before, moment.changes);
    assert(chain.skip(j)[0] == chain[j]);
    assert(chain.skip(j).drop_first() =~= chain.skip(j + 1));
    assert(pages[addr] == chain[j]);
    assert(is_chain(pages, chain[j].info.chain_next, chain.skip(j + 1)));
    lemma_find_value_behind(chain, raw, op.key.lsn, j);
    if !(moment.event is Failed) {
        if page_value(chain[j], raw, op.key.lsn) is Some {
            assert(is_held(root, c, op.key, page_value(chain[j], raw, op.key.lsn)->0));
        } else if chain[j].info.chain_next == 0 {
            assert(chain.skip(j + 1).len() == 0);
            assert(find_value(chain.skip(j + 1), raw, op.key.lsn) is None);
            assert(is_held(root, c, op.key, None));
        } else {
            assert(chain.skip(j + 1).len() > 0);
            match turn.next {
                Next::Run(_, asked) => {
                    assert(is_value_walk(pages, root, c, op.key, asked, j + 1));
                },
                _ => {},
            }
        }
    }
}

/// A step of a read keeps to what a read comes to.
proof fn lemma_get_step(
    pages: Map<u64, Page>,
    root: Page,
    first: Seq<Change>,
    before: Seq<Change>,
    key: Key,
    op: GetOp,
    action: Action,
    given: GetTurn,
    moment: Moment,
    turn: GetTurn,
)
    requires
        can_grow(root, moment.changes),
        extends(first, moment.changes),
        extends(before, moment.changes),
        given.next == Next::<GetOp, Result<Option<Vec<u8>>, Error>>::Run(op, action),
        is_get_turn(pages, root, first, before, key, given),
        answers(pages, grown(root, moment.changes).0, action, moment.event),
        op.steps_to(moment.options, moment.safe_lsn, moment.now, moment.event, turn),
    ensures
        is_get_turn(pages, root, first, moment.changes, key, turn),
{
    match op.stage {
        GetStage::Find(search) => {
            let searched = choose|searched: FindLeafTurn| #[trigger]
                search.steps_to(
                    moment.options,
                    moment.safe_lsn,
                    moment.now,
                    moment.event,
                    searched,
                ) && op.goes_on_with_search(moment.now, searched, turn);
            law_search_keeps_on_its_way(
                pages,
                root,
                first,
                before,
                search,
                action,
                moment,
                searched,
            );
            if searched.next matches Next::Done(Ok(_)) {
                lemma_leaf_found(pages, root, first, op, moment, searched, turn);
            }
        },
        GetStage::Walk { .. } => {
            lemma_value_walk(pages, root, first, before, op, action, given, moment, turn);
        },
    }
}

/// The step is handed what came of the action that the turn before it asked for.
pub open spec fn is_get_step(
    pages: Map<u64, Page>,
    root: Page,
    moments: Seq<Moment>,
    turns: Seq<GetTurn>,
    i: int,
) -> bool {
    let moment = moments[i];
    &&& can_grow(root, moment.changes)
    &&& i > 0 ==> extends(moments[i - 1].changes, moment.changes)
    &&& turns[i].next matches Next::Run(op, action)
    &&& answers(pages, grown(root, moment.changes).0, action, moment.event)
    &&& op.steps_to(
        moment.options,
        moment.safe_lsn,
        moment.now,
        moment.event,
        turns[i + 1],
    )
}

/// A run of a read: it starts, and goes on step by step. The tree changes as it may.
pub open spec fn is_get_run(
    pages: Map<u64, Page>,
    root: Page,
    key: Key,
    start_at: Duration,
    moments: Seq<Moment>,
    turns: Seq<GetTurn>,
) -> bool {
    &&& turns.len() == moments.len() + 1
    &&& get_begins(key, start_at, turns[0])
    &&& forall|i: int|
        0 <= i < moments.len() ==> #[trigger] is_get_step(pages, root, moments, turns, i)
}

/// A read is on its way after each of its steps.
pub proof fn lemma_get_run(
    pages: Map<u64, Page>,
    root: Page,
    key: Key,
    start_at: Duration,
    moments: Seq<Moment>,
    turns: Seq<GetTurn>,
    n: int,
)
    requires
        is_get_run(pages, root, key, start_at, moments, turns),
        0 < n <= moments.len(),
    ensures
        extends(moments[0].changes, moments[n - 1].changes),
        is_get_turn(pages, root, moments[0].changes, moments[n - 1].changes, key, turns[n]),
    decreases n,
{
    let first = moments[0].changes;
    let moment = moments[n - 1];
    assert(is_get_step(pages, root, moments, turns, n - 1));
    assert(first =~= first.take(first.len() as int));
    match turns[n - 1].next {
        Next::Run(op, action) => {
            let before = if n == 1 {
                first
            } else {
                moments[n - 2].changes
            };
            if n == 1 {
                match op.stage {
                    GetStage::Find(search) => {
                        lemma_search_begins(pages, root, first, first, search, key.raw@);
                    },
                    _ => {},
                }
            } else {
                lemma_get_run(pages, root, key, start_at, moments, turns, n - 1);
                assert(moments[n - 2].changes == before);
                lemma_extends_transitive(first, before, moment.changes);
            }
            lemma_get_step(
                pages,
                root,
                first,
                before,
                key,
                op,
                action,
                turns[n - 1],
                moment,
                turns[n],
            );
        },
        _ => {},
    }
}

/// A whole read returns what the last write of the key has stored that the reader may see, at
/// some point between the start of the read and its end, however the tree changes meanwhile.
pub proof fn law_whole_read_returns_a_last_write(
    pages: Map<u64, Page>,
    root: Page,
    key: Key,
    start_at: Duration,
    moments: Seq<Moment>,
    turns: Seq<GetTurn>,
    value: Option<Vec<u8>>,
)
    requires
        is_get_run(pages, root, key, start_at, moments, turns),
        turns.last().next == Next::<GetOp, Result<Option<Vec<u8>>, Error>>::Done(
            Ok(value),
        ),
        is_safe(moments.last().changes, key.lsn),
    ensures
        exists|c: Seq<Change>|
            between(moments[0].changes, c, moments.last().changes) && value_view(value)
                == #[trigger] last_written(c, key.raw@, key.lsn),
{
    let n = moments.len() as int;
    let first = moments[0].changes;
    let last = moments.last().changes;
    assert(n > 0);
    lemma_get_run(pages, root, key, start_at, moments, turns, n);
    let c = choose|c: Seq<Change>|
        between(first, c, last) && #[trigger] is_held(root, c, key, value_view(value));
    assert(is_get_step(pages, root, moments, turns, n - 1));
    lemma_grown_before(root, c, last);
    lemma_safe_before(c, last, key.lsn);
    law_reads_return_the_last_write(root, c, key.raw@, key.lsn);
    assert(value_view(value) == last_written(c, key.raw@, key.lsn));
}

/// Between the two points nothing is written that a reader of the key may see.
pub open spec fn is_untouched(
    first: Seq<Change>,
    last: Seq<Change>,
    raw: Seq<u8>,
    lsn: u64,
) -> bool {
    &&& extends(first, last)
    &&& forall|i: int|
        first.len() <= i < last.len() ==> ((#[trigger] last[i]) matches Change::Write {
            key,
            ..
        } ==> key.raw@ != raw || key.lsn > lsn)
}

pub proof fn lemma_untouched(
    first: Seq<Change>,
    c: Seq<Change>,
    last: Seq<Change>,
    raw: Seq<u8>,
    lsn: u64,
)
    requires
        is_untouched(first, last, raw, lsn),
        between(first, c, last),
    ensures
        last_written(c, raw, lsn) == last_written(first, raw, lsn),
    decreases c.len(),
{
    if c.len() == first.len() {
        assert(c =~= first);
    } else {
        let rest = c.drop_last();
        let n = rest.len() as int;
        assert(c.last() == last[n]) by {
            assert(c[n] == last.take(c.len() as int)[n]);
        }
        assert(extends(first, rest)) by {
            assert(first =~= c.take(first.len() as int));
            assert(first =~= rest.take(first.len() as int));
        }
        assert(extends(rest, last)) by {
            assert(c =~= last.take(c.len() as int));
            assert(rest =~= last.take(n));
        }
        lemma_untouched(first, rest, last, raw, lsn);
    }
}

/// A whole read during which nothing is written that it may see returns what the last write of
/// the key has stored. Splits and consolidations may happen meanwhile, and so may writes of
/// other keys and later writes.
pub proof fn law_whole_read_returns_the_last_write(
    pages: Map<u64, Page>,
    root: Page,
    key: Key,
    start_at: Duration,
    moments: Seq<Moment>,
    turns: Seq<GetTurn>,
    value: Option<Vec<u8>>,
)
    requires
        is_get_run(pages, root, key, start_at, moments, turns),
        turns.last().next == Next::<GetOp, Result<Option<Vec<u8>>, Error>>::Done(
            Ok(value),
        ),
        is_safe(moments.last().changes, key.lsn),
        is_untouched(moments[0].changes, moments.last().changes, key.raw@, key.lsn),
    ensures
        value_view(value) == last_written(moments[0].changes, key.raw@, key.lsn),
{
    let first = moments[0].changes;
    let last = moments.last().changes;
    law_whole_read_returns_a_last_write(pages, root, key, start_at, moments, turns, value);
    let c = choose|c: Seq<Change>|
        between(first, c, last) && value_view(value) == #[trigger] last_written(
            c,
            key.raw@,
            key.lsn,
        );
    lemma_untouched(first, c, last, key.raw@, key.lsn);
}

/// Whatever is written to other keys, or later to this one, and whatever splits and
/// consolidations that sets off: a reader of the key gets what it got before.
pub proof fn law_other_writes_change_no_read(
    root: Page,
    first: Seq<Change>,
    last: Seq<Change>,
    raw: Seq<u8>,
    lsn: u64,
)
    requires
        can_grow(root, last),
        is_safe(last, lsn),
        is_untouched(first, last, raw, lsn),
    ensures
        ({
            let (f, height) = grown(root, first);
            let (g, after) = grown(root, last);
            read(g, after, raw, lsn) == read(f, height, raw, lsn)
        }),
{
    lemma_grown_before(root, first, last);
    lemma_safe_before(first, last, lsn);
    law_reads_return_the_last_write(root, first, raw, lsn);
    law_reads_return_the_last_write(root, last, raw, lsn);
    assert(last =~= last.take(last.len() as int));
    lemma_untouched(first, last, last, raw, lsn);
}

/// Two whole reads of a key return the same, whatever is written in between to other keys, or
/// later to this one.
pub proof fn law_reads_around_other_writes_agree(
    pages: Map<u64, Page>,
    root: Page,
    key: Key,
    start_at: Duration,
    moments: Seq<Moment>,
    turns: Seq<GetTurn>,
    value: Option<Vec<u8>>,
    later_pages: Map<u64, Page>,
    later_start_at: Duration,
    later_moments: Seq<Moment>,
    later_turns: Seq<GetTurn>,
    later_value: Option<Vec<u8>>,
)
    requires
        is_get_run(pages, root, key, start_at, moments, turns),
        turns.last().next == Next::<GetOp, Result<Option<Vec<u8>>, Error>>::Done(
            Ok(value),
        ),
        is_get_run(later_pages, root, key, later_start_at, later_moments, later_turns),
        later_turns.last().next == Next::<
            GetOp,
            Result<Option<Vec<u8>>, Error>,
        >::Done(Ok(later_value)),
        extends(moments.last().changes, later_moments[0].changes),
        is_safe(later_moments.last().changes, key.lsn),
        is_untouched(moments[0].changes, later_moments.last().changes, key.raw@, key.lsn),
    ensures
        value_view(later_value) == value_view(value),
{
    let a = moments[0].changes;
    let b = moments.last().changes;
    let c = later_moments[0].changes;
    let d = later_moments.last().changes;
    let n = moments.len() as int;
    let m = later_moments.len() as int;
    assert(n > 0 && m > 0);
    lemma_get_run(pages, root, key, start_at, moments, turns, n);
    lemma_get_run(later_pages, root, key, later_start_at, later_moments, later_turns, m);
    assert(b == moments[n - 1].changes);
    assert(d == later_moments[m - 1].changes);
    lemma_extends_transitive(b, c, d);
    lemma_extends_transitive(a, b, c);
    lemma_part_untouched(a, a, b, d, key.raw@, key.lsn);
    lemma_part_untouched(a, c, d, d, key.raw@, key.lsn);
    lemma_safe_before(b, d, key.lsn);
    law_whole_read_returns_the_last_write(pages, root, key, start_at, moments, turns, value);
    law_whole_read_returns_the_last_write(
        later_pages,
        root,
        key,
        later_start_at,
        later_moments,
        later_turns,
        later_value,
    );
    lemma_untouched(a, c, d, key.raw@, key.lsn);
}

/// What is untouched is untouched in every part.
pub proof fn lemma_part_untouched(
    first: Seq<Change>,
    from: Seq<Change>,
    to: Seq<Change>,
    last: Seq<Change>,
    raw: Seq<u8>,
    lsn: u64,
)
    requires
        is_untouched(first, last, raw, lsn),
        extends(first, from),
        extends(from, to),
        extends(to, last),
    ensures
        is_untouched(from, to, raw, lsn),
{
    assert forall|i: int| from.len() <= i < to.len() implies ((#[trigger] to[i]) matches
        Change::Write { key, .. } ==> key.raw@ != raw || key.lsn > lsn) by {
        assert(to[i] == last.take(to.len() as int)[i]);
        assert(last[i] == to[i]);
    }
}

} // verus!
