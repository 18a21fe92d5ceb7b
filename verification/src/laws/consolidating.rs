//! A consolidation from its start to its end.

use crate::consolidate::{collection_ends, consolidate_starts, consolidated_header, is_consolidated,
    Collected, ConsolidateOp, ConsolidateStage, ConsolidateTurn, ConsolidationInfo};
use crate::laws::children::chain_wf;
use crate::laws::collection::{chain_limit, describes, law_collection_describes_the_chain,
    law_consolidation_keeps_reads};
use crate::laws::exchange::{consolidates_part, lemma_chain_limit_parts,
    lemma_consolidated_inner_ok, lemma_consolidated_leaf_ok};
use crate::laws::forest::{law_root_is_responsible_for_all_keys, page_ok, path_ok, Place};
use crate::laws::history::{can_change, can_grow, grown, Change};
use crate::laws::inner::child_at;
use crate::laws::runs::{aims, extends, lemma_grown_tree, lemma_growth_keeps_aim, Moment};
use crate::laws::store::{addrs_of, is_chain};
use crate::lookup::find_value;
use crate::merge::{limit_view, under_limit};
use crate::note::Note;
use crate::page::{built_info, Draft, Index, Items, Page, PageHandle, PageInfo, PageKind,
    RangeView, ROOT_ID};
use crate::turn::{Action, Error, Event, Next};
use std::time::Duration;
use vstd::prelude::*;

verus! {

/// The address is that of the page at `n` of the chain, and what is known is true of the pages
/// before it.
pub open spec fn is_collecting(
    pages: Map<u64, Page>,
    at: PageHandle,
    chain: Seq<Page>,
    info: ConsolidationInfo,
    addr: u64,
    n: int,
) -> bool {
    &&& 0 <= n < chain.len()
    &&& addr == if n == 0 {
        at.addr
    } else {
        chain[n - 1].info.chain_next
    }
    &&& is_chain(pages, addr, chain.skip(n))
    &&& describes(info, at.page, addrs_of(at.addr, chain.take(n)), chain.take(n))
    &&& info.pages is Values <==> at.page.tier is Leaf
}

/// The items are what is left of the first `n` pages of the chain. What a split has given
/// away is left behind no page, and an inner chain is taken whole.
pub open spec fn is_collected(
    at: PageHandle,
    chain: Seq<Page>,
    safe_lsn: u64,
    items: Items,
    last_page: PageInfo,
    page_addrs: Seq<u64>,
    info: ConsolidationInfo,
    n: int,
) -> bool {
    &&& 0 < n <= chain.len()
    &&& describes(info, at.page, page_addrs, chain.take(n))
    &&& info.pages is Values <==> at.page.tier is Leaf
    &&& page_addrs == addrs_of(at.addr, chain.take(n))
    &&& info.range_limit is Some || at.page.tier is Inner ==> n == chain.len()
    &&& last_page == info.last_page
    &&& is_consolidated(items, info.pages, limit_view(info.range_limit), safe_lsn)
}

/// What a turn of a consolidation of the chain has come to.
pub open spec fn is_consolidate_turn(
    pages: Map<u64, Page>,
    at: PageHandle,
    chain: Seq<Page>,
    safe_lsn: u64,
    turn: ConsolidateTurn,
) -> bool {
    match turn.next {
        Next::Run(op, action) => {
            &&& op.at == at
            &&& op.safe_lsn == safe_lsn
            &&& match op.stage {
                ConsolidateStage::Collect { info, addr, .. } => {
                    &&& action matches Action::ReadPage(a, _) && a == addr
                    &&& exists|n: int| #[trigger]
                        is_collecting(pages, at, chain, info, addr, n)
                },
                ConsolidateStage::Begin { items, last_page, page_addrs, .. } => exists|
                    info: ConsolidationInfo,
                    n: int,
                | #[trigger]
                    is_collected(at, chain, safe_lsn, items, last_page, page_addrs@, info, n),
                ConsolidateStage::Build { last_page, page_addrs, .. } => {
                    &&& action matches Action::BuildPage(draft)
                    &&& draft.tier == at.page.tier
                    &&& draft.kind is Data
                    &&& exists|info: ConsolidationInfo, n: int| #[trigger]
                        is_collected(
                            at,
                            chain,
                            safe_lsn,
                            draft.items,
                            last_page,
                            page_addrs@,
                            info,
                            n,
                        )
                },
                ConsolidateStage::Replace { .. } => true,
            }
        },
        _ => true,
    }
}

/// The chain stands at the page's address, and all its pages are of the page's tier.
pub open spec fn is_chain_of(pages: Map<u64, Page>, at: PageHandle, chain: Seq<Page>) -> bool {
    &&& chain.len() > 0
    &&& chain_wf(chain)
    &&& is_chain(pages, at.addr, chain)
    &&& at.page == chain[0].info
    &&& forall|i: int| 0 <= i < chain.len() ==> (#[trigger] chain[i]).info.tier == at.page.tier
}

pub proof fn lemma_starts(
    pages: Map<u64, Page>,
    at: PageHandle,
    chain: Seq<Page>,
    safe_lsn: u64,
    now: Duration,
    turn: ConsolidateTurn,
)
    requires
        is_chain_of(pages, at, chain),
        consolidate_starts(at, safe_lsn, now, turn),
    ensures
        is_consolidate_turn(pages, at, chain, safe_lsn, turn),
{
    match turn.next {
        Next::Run(op, _) => match op.stage {
            ConsolidateStage::Collect { info, addr, .. } => {
                assert(chain.skip(0) =~= chain);
                assert(chain.take(0) =~= Seq::<Page>::empty());
                law_collection_describes_the_chain(
                    info,
                    at.page,
                    Seq::empty(),
                    Seq::empty(),
                    addr,
                    chain[0],
                    info,
                );
                assert(addrs_of(at.addr, chain.take(0)) =~= Seq::<u64>::empty());
                assert(is_collecting(pages, at, chain, info, addr, 0));
            },
            _ => {},
        },
        _ => {},
    }
}

/// The addresses of one more page of a chain.
proof fn lemma_addrs_more(pages: Map<u64, Page>, first: u64, chain: Seq<Page>, addr: u64, n: int)
    requires
        is_chain(pages, first, chain),
        0 <= n < chain.len(),
        n == 0 ==> addr == first,
        n > 0 ==> addr == chain[n - 1].info.chain_next,
    ensures
        addrs_of(first, chain.take(n + 1)) == addrs_of(first, chain.take(n)).push(addr),
    decreases n,
{
    let more = chain.take(n + 1);
    let next = chain[0].info.chain_next;
    let rest = chain.drop_first();
    assert(more[0] == chain[0]);
    assert(more.drop_first() =~= rest.take(n));
    if n == 0 {
        assert(rest.take(0) =~= Seq::<Page>::empty());
        assert(chain.take(0) =~= Seq::<Page>::empty());
        assert(addrs_of(next, rest.take(0)) =~= Seq::<u64>::empty());
        assert(addrs_of(first, more) =~= addrs_of(first, chain.take(0)).push(addr));
    } else {
        lemma_addrs_more(pages, next, rest, addr, n - 1);
        assert(chain.take(n)[0] == chain[0]);
        assert(chain.take(n).drop_first() =~= rest.take(n - 1));
        assert(addrs_of(first, more) =~= addrs_of(first, chain.take(n)).push(addr));
    }
}

proof fn lemma_collects(
    pages: Map<u64, Page>,
    at: PageHandle,
    chain: Seq<Page>,
    op: ConsolidateOp,
    moment: Moment,
    turn: ConsolidateTurn,
    n: int,
)
    requires
        is_chain_of(pages, at, chain),
        op.at == at,
        op.stage is Collect,
        is_collecting(pages, at, chain, op.stage->info, op.stage->addr, n),
        moment.event == Event::Page(pages[op.stage->addr]),
        op.steps_to(moment.options, moment.now, moment.event, turn),
    ensures
        is_consolidate_turn(pages, at, chain, op.safe_lsn, turn),
{
    let info = op.stage->info;
    let addr = op.stage->addr;
    let page = chain[n];
    assert(chain.skip(n)[0] == page);
    assert(pages[addr] == page);
    assert(chain.skip(n).drop_first() =~= chain.skip(n + 1));
    assert(is_chain(pages, page.info.chain_next, chain.skip(n + 1)));
    if info.enough_before(moment.options, page.info) {
        assert(n > 0) by {
            if n == 0 {
                assert(chain.take(0) =~= Seq::<Page>::empty());
            }
        }
        match turn.next {
            Next::Run(next, _) => match next.stage {
                ConsolidateStage::Begin { items, last_page, page_addrs, .. } => {
                    assert(page.info.tier == at.page.tier);
                    assert(is_collected(
                        at,
                        chain,
                        op.safe_lsn,
                        items,
                        last_page,
                        page_addrs@,
                        info,
                        n,
                    ));
                },
                _ => {},
            },
            _ => {},
        }
    } else if info.objection(page) is None {
        lemma_takes_page(pages, at, chain, op, moment, turn, n);
    }
}

proof fn lemma_takes_page(
    pages: Map<u64, Page>,
    at: PageHandle,
    chain: Seq<Page>,
    op: ConsolidateOp,
    moment: Moment,
    turn: ConsolidateTurn,
    n: int,
)
    requires
        is_chain_of(pages, at, chain),
        op.at == at,
        op.stage is Collect,
        is_collecting(pages, at, chain, op.stage->info, op.stage->addr, n),
        moment.event == Event::Page(chain[n]),
        !op.stage->info.enough_before(moment.options, chain[n].info),
        op.stage->info.objection(chain[n]) is None,
        is_chain(pages, chain[n].info.chain_next, chain.skip(n + 1)),
        op.steps_to(moment.options, moment.now, moment.event, turn),
    ensures
        is_consolidate_turn(pages, at, chain, op.safe_lsn, turn),
{
    let info = op.stage->info;
    let addr = op.stage->addr;
    let page = chain[n];
    let addrs = addrs_of(at.addr, chain.take(n));
    assert(chain.take(n).push(page) =~= chain.take(n + 1));
    lemma_addrs_more(pages, at.addr, chain, addr, n);
    match turn.next {
        Next::Run(next, action) => match next.stage {
            ConsolidateStage::Collect { info: more, addr: to, .. } => {
                law_collection_describes_the_chain(
                    info,
                    at.page,
                    addrs,
                    chain.take(n),
                    addr,
                    page,
                    more,
                );
                if n + 1 == chain.len() {
                    assert(chain.skip(n + 1).len() == 0);
                }
                assert(is_collecting(pages, at, chain, more, to, n + 1));
            },
            ConsolidateStage::Begin { items, last_page, page_addrs, start_at: from } => {
                let more = choose|more: ConsolidationInfo| #[trigger]
                    info.with_page(addr, page, more) && collection_ends(
                        at,
                        op.safe_lsn,
                        more,
                        op.stage->Collect_start_at,
                        moment.now,
                        if page.info.kind is Data {
                            seq![Note::ReturnCold]
                        } else {
                            Seq::empty()
                        },
                        turn,
                    );
                law_collection_describes_the_chain(
                    info,
                    at.page,
                    addrs,
                    chain.take(n),
                    addr,
                    page,
                    more,
                );
                assert(chain.skip(n + 1).len() == 0);
                assert(is_collected(
                    at,
                    chain,
                    op.safe_lsn,
                    items,
                    last_page,
                    page_addrs@,
                    more,
                    n + 1,
                ));
            },
            _ => {},
        },
        _ => {},
    }
}

/// A step of a consolidation keeps to what a consolidation comes to.
pub proof fn lemma_step(
    pages: Map<u64, Page>,
    at: PageHandle,
    chain: Seq<Page>,
    safe_lsn: u64,
    given: ConsolidateTurn,
    op: ConsolidateOp,
    action: Action,
    moment: Moment,
    turn: ConsolidateTurn,
)
    requires
        is_chain_of(pages, at, chain),
        is_consolidate_turn(pages, at, chain, safe_lsn, given),
        given.next == Next::<ConsolidateOp, Result<PageHandle, Error>>::Run(op, action),
        action matches Action::ReadPage(addr, _) ==> moment.event is Failed || moment.event
            == Event::Page(pages[addr]),
        op.steps_to(moment.options, moment.now, moment.event, turn),
    ensures
        is_consolidate_turn(pages, at, chain, safe_lsn, turn),
{
    match (op.stage, moment.event) {
        (ConsolidateStage::Collect { info, addr, .. }, Event::Page(page)) => {
            let n = choose|n: int| #[trigger] is_collecting(pages, at, chain, info, addr, n);
            lemma_collects(pages, at, chain, op, moment, turn, n);
        },
        (ConsolidateStage::Begin { items, last_page, page_addrs, .. }, Event::Begun) => {
            let (info, n) = choose|info: ConsolidationInfo, n: int| #[trigger]
                is_collected(at, chain, safe_lsn, items, last_page, page_addrs@, info, n);
            match turn.next {
                Next::Run(next, asked) => {
                    assert(is_collected(
                        at,
                        chain,
                        safe_lsn,
                        asked->BuildPage_0.items,
                        next.stage->Build_last_page,
                        next.stage->Build_page_addrs@,
                        info,
                        n,
                    ));
                },
                _ => {},
            }
        },
        _ => {},
    }
}

/// The step is handed what came of the action that the turn before it asked for. Pages that
/// have been read stay as they are.
pub open spec fn is_consolidate_step(
    pages: Map<u64, Page>,
    moments: Seq<Moment>,
    turns: Seq<ConsolidateTurn>,
    i: int,
) -> bool {
    let moment = moments[i];
    &&& turns[i].next matches Next::Run(op, action)
    &&& action matches Action::ReadPage(addr, _) ==> moment.event is Failed || moment.event
        == Event::Page(pages[addr])
    &&& op.steps_to(moment.options, moment.now, moment.event, turns[i + 1])
}

/// A run of a consolidation: it starts, and goes on step by step.
pub open spec fn is_consolidate_run(
    pages: Map<u64, Page>,
    at: PageHandle,
    safe_lsn: u64,
    start_at: Duration,
    moments: Seq<Moment>,
    turns: Seq<ConsolidateTurn>,
) -> bool {
    &&& turns.len() == moments.len() + 1
    &&& consolidate_starts(at, safe_lsn, start_at, turns[0])
    &&& forall|i: int|
        0 <= i < moments.len() ==> #[trigger] is_consolidate_step(pages, moments, turns, i)
}

proof fn lemma_consolidate_run(
    pages: Map<u64, Page>,
    at: PageHandle,
    chain: Seq<Page>,
    safe_lsn: u64,
    start_at: Duration,
    moments: Seq<Moment>,
    turns: Seq<ConsolidateTurn>,
    n: int,
)
    requires
        is_chain_of(pages, at, chain),
        is_consolidate_run(pages, at, safe_lsn, start_at, moments, turns),
        0 <= n <= moments.len(),
    ensures
        is_consolidate_turn(pages, at, chain, safe_lsn, turns[n]),
    decreases n,
{
    if n == 0 {
        lemma_starts(pages, at, chain, safe_lsn, start_at, turns[0]);
    } else {
        lemma_consolidate_run(pages, at, chain, safe_lsn, start_at, moments, turns, n - 1);
        assert(is_consolidate_step(pages, moments, turns, n - 1));
        let moment = moments[n - 1];
        match turns[n - 1].next {
            Next::Run(op, action) => {
                lemma_step(
                    pages,
                    at,
                    chain,
                    safe_lsn,
                    turns[n - 1],
                    op,
                    action,
                    moment,
                    turns[n],
                );
            },
            _ => {},
        }
    }
}

/// The page that a turn asks to be built.
pub open spec fn drafted(turn: ConsolidateTurn) -> Draft {
    turn.next->Run_1->BuildPage_0
}

/// The page takes the place of the first `n` pages of the chain in the place: what is left is
/// fit for it, readers at the safe sequence number or later get what they got, and keys go to
/// the children that they went to.
pub open spec fn takes_the_place(
    chain: Seq<Page>,
    place: Place,
    safe_lsn: u64,
    page: Page,
    n: int,
) -> bool {
    let after = seq![page] + chain.skip(n);
    &&& 0 < n <= chain.len()
    &&& page.info.chain_next == chain[n - 1].info.chain_next
    &&& page_ok(after, place)
    &&& forall|raw: Seq<u8>, lsn: u64|
        place.level == 0 && safe_lsn <= lsn && under_limit(raw, chain_limit(chain))
            ==> #[trigger] find_value(after, raw, lsn) == find_value(chain, raw, lsn)
    &&& forall|raw: Seq<u8>|
        place.level > 0 && under_limit(raw, place.range.end) ==> #[trigger] child_at(
            after,
            place.range.end,
            raw,
        ) == child_at(chain, place.range.end, raw)
}

/// What a whole consolidation that succeeds has collected.
proof fn lemma_whole_consolidation(
    pages: Map<u64, Page>,
    at: PageHandle,
    chain: Seq<Page>,
    place: Place,
    safe_lsn: u64,
    start_at: Duration,
    moments: Seq<Moment>,
    turns: Seq<ConsolidateTurn>,
    new: PageHandle,
) -> (r: (ConsolidationInfo, int))
    requires
        page_ok(chain, place),
        is_chain(pages, at.addr, chain),
        at.page == chain[0].info,
        is_consolidate_run(pages, at, safe_lsn, start_at, moments, turns),
        turns.last().next == Next::<ConsolidateOp, Result<PageHandle, Error>>::Done(Ok(new)),
    ensures
        turns.len() > 3,
        turns[turns.len() - 3].next matches Next::Run(_, Action::BuildPage(_)),
        is_collected(
            at,
            chain,
            safe_lsn,
            drafted(turns[turns.len() - 3]).items,
            r.0.last_page,
            r.0.page_addrs@,
            r.0,
            r.1,
        ),
        new.id == at.id,
        new.page == built_info(
            at.page.tier,
            PageKind::Data,
            consolidated_header(at, r.0.last_page),
            new.page.size,
        ),
{
    let t = moments.len() as int;
    assert forall|i: int| 0 <= i < chain.len() implies (#[trigger] chain[i]).info.tier
        == at.page.tier by {
        assert(chain[0].info.tier == at.page.tier);
    }
    assert(is_chain_of(pages, at, chain));
    assert(t > 0);
    assert(is_consolidate_step(pages, moments, turns, t - 1));
    assert(turns[t - 1].next matches Next::Run(op, _) && op.stage is Replace);
    assert(t > 1);
    assert(is_consolidate_step(pages, moments, turns, t - 2));
    assert(turns[t - 2].next matches Next::Run(op, _) && op.stage is Build);
    assert(t > 2);
    assert(is_consolidate_step(pages, moments, turns, t - 3));
    lemma_consolidate_run(pages, at, chain, safe_lsn, start_at, moments, turns, t - 1);
    lemma_consolidate_run(pages, at, chain, safe_lsn, start_at, moments, turns, t - 2);
    let stage = turns[t - 2].next->Run_0.stage;
    choose|info: ConsolidationInfo, n: int| #[trigger]
        is_collected(
            at,
            chain,
            safe_lsn,
            drafted(turns[t - 2]).items,
            stage->Build_last_page,
            stage->Build_page_addrs@,
            info,
            n,
        )
}

/// A whole consolidation that succeeds: the page that it has built takes the place of the newest
/// pages of the chain, the id and the epoch stay, and readers and searches come to what they
/// came to before.
pub proof fn law_whole_consolidation_changes_nothing(
    pages: Map<u64, Page>,
    at: PageHandle,
    chain: Seq<Page>,
    place: Place,
    safe_lsn: u64,
    start_at: Duration,
    moments: Seq<Moment>,
    turns: Seq<ConsolidateTurn>,
    new: PageHandle,
)
    requires
        page_ok(chain, place),
        is_chain(pages, at.addr, chain),
        at.page == chain[0].info,
        is_consolidate_run(pages, at, safe_lsn, start_at, moments, turns),
        turns.last().next == Next::<ConsolidateOp, Result<PageHandle, Error>>::Done(Ok(new)),
    ensures
        new.id == at.id,
        new.page.epoch == at.page.epoch,
        new.page.tier == at.page.tier,
        turns.len() > 3,
        turns[turns.len() - 3].next matches Next::Run(_, Action::BuildPage(_)),
        exists|n: int| #[trigger]
            takes_the_place(
                chain,
                place,
                safe_lsn,
                Page { info: new.page, items: drafted(turns[turns.len() - 3]).items },
                n,
            ),
{
    let (info, n) = lemma_whole_consolidation(
        pages,
        at,
        chain,
        place,
        safe_lsn,
        start_at,
        moments,
        turns,
        new,
    );
    let items = drafted(turns[turns.len() - 3]).items;
    let page = Page { info: new.page, items };
    lemma_taken(
        at,
        chain,
        place,
        safe_lsn,
        items,
        info.last_page,
        info.page_addrs@,
        info,
        n,
        page,
    );
}

/// The change of the tree that a consolidation of the first `n` pages of the chain makes.
pub open spec fn consolidated(
    at: PageHandle,
    chain: Seq<Page>,
    safe_lsn: u64,
    page: Page,
    collected: Collected,
    n: int,
) -> Change {
    if at.page.tier is Leaf {
        Change::ConsolidateLeaf {
            leaf_id: at.id,
            prefix: chain.take(n),
            rest: chain.skip(n),
            page,
            pages: collected,
            safe_lsn,
        }
    } else {
        Change::ConsolidateInner { inner_id: at.id, page, pages: collected, safe_lsn }
    }
}

/// However the tree has changed since the consolidation began: where its page lands, the page
/// takes the place of pages of the chain as it stands, so that the consolidation is a change
/// that can be made. A search for some key must have led to the page when the consolidation
/// began, or it is the root.
pub proof fn law_whole_consolidation_can_be_made(
    pages: Map<u64, Page>,
    root: Page,
    first: Seq<Change>,
    at: PageHandle,
    safe_lsn: u64,
    start_at: Duration,
    moments: Seq<Moment>,
    turns: Seq<ConsolidateTurn>,
    new: PageHandle,
    near: Seq<u8>,
    level: nat,
    range: RangeView,
)
    requires
        is_consolidate_run(pages, at, safe_lsn, start_at, moments, turns),
        turns.last().next == Next::<ConsolidateOp, Result<PageHandle, Error>>::Done(Ok(new)),
        at.page == pages[at.addr].info,
        ({
            let (f, height) = grown(root, first);
            let index = Index { id: at.id, epoch: at.page.epoch };
            at.id != ROOT_ID ==> aims(f, height, near, level, index, range)
        }),
        ({
            let last = moments.last().changes;
            let f = grown(root, last).0;
            &&& can_grow(root, last)
            &&& extends(first, last)
            &&& f.has(at.id)
            &&& is_chain(pages, at.addr, f.chains[at.id])
        }),
    ensures
        ({
            let (f, height) = grown(root, moments.last().changes);
            let page = Page { info: new.page, items: drafted(turns[turns.len() - 3]).items };
            let chain = f.chains[at.id];
            exists|collected: Collected, n: int|
                can_change(
                    f,
                    height,
                    #[trigger] consolidated(at, chain, safe_lsn, page, collected, n),
                )
        }),
{
    let last = moments.last().changes;
    let (f, height) = grown(root, last);
    let chain = f.chains[at.id];
    let place = f.places[at.id];
    lemma_grown_tree(root, last);
    assert(page_ok(chain, place));
    assert(pages[at.addr] == chain[0]);
    let (info, n) = lemma_whole_consolidation(
        pages,
        at,
        chain,
        place,
        safe_lsn,
        start_at,
        moments,
        turns,
        new,
    );
    if at.id == ROOT_ID {
        law_root_is_responsible_for_all_keys(f, height, near);
    } else {
        let index = Index { id: at.id, epoch: at.page.epoch };
        lemma_growth_keeps_aim(root, first, last, near, level, index, range);
        assert(path_ok(f, height, near, level));
    }
    assert(!f.pending(at.id));
    let page = Page { info: new.page, items: drafted(turns[turns.len() - 3]).items };
    let prefix = chain.take(n);
    let rest = chain.skip(n);
    assert(chain =~= prefix + rest);
    assert(prefix[0] == chain[0]);
    assert(consolidates_part(prefix, rest, page, info.pages, safe_lsn));
    assert(chain[0].info.tier is Leaf <==> place.level == 0);
    if at.page.tier is Inner {
        assert(prefix =~= chain);
        assert(rest =~= Seq::<Page>::empty());
    }
    assert(can_change(f, height, consolidated(at, chain, safe_lsn, page, info.pages, n)));
}

pub proof fn lemma_taken(
    at: PageHandle,
    chain: Seq<Page>,
    place: Place,
    safe_lsn: u64,
    items: Items,
    last_page: PageInfo,
    page_addrs: Seq<u64>,
    info: ConsolidationInfo,
    n: int,
    page: Page,
)
    requires
        page_ok(chain, place),
        at.page == chain[0].info,
        is_collected(at, chain, safe_lsn, items, last_page, page_addrs, info, n),
        page.items == items,
        page.info == built_info(
            at.page.tier,
            PageKind::Data,
            consolidated_header(at, last_page),
            page.info.size,
        ),
    ensures
        takes_the_place(chain, place, safe_lsn, page, n),
{
    let prefix = chain.take(n);
    let rest = chain.skip(n);
    let after = seq![page] + rest;
    assert(chain =~= prefix + rest);
    assert(prefix[0] == chain[0]);
    assert(prefix.last() == chain[n - 1]);
    lemma_chain_limit_parts(prefix, rest);
    assert(consolidates_part(prefix, rest, page, info.pages, safe_lsn));
    if place.level == 0 {
        assert(chain[0].info.tier is Leaf);
        lemma_consolidated_leaf_ok(prefix, rest, place, page, info.pages, safe_lsn);
        assert forall|raw: Seq<u8>, lsn: u64|
            place.level == 0 && safe_lsn <= lsn && under_limit(
                raw,
                chain_limit(chain),
            ) implies #[trigger] find_value(after, raw, lsn) == find_value(chain, raw, lsn) by {
            law_consolidation_keeps_reads(
                prefix,
                rest,
                page,
                info.pages,
                safe_lsn,
                raw,
                lsn,
            );
        }
    } else {
        assert(rest =~= Seq::<Page>::empty());
        assert(prefix =~= chain);
        assert(after =~= seq![page]);
        lemma_consolidated_inner_ok(chain, place, page, info.pages, safe_lsn);
    }
}

} // verus!
