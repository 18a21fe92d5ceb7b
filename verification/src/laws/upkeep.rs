//! When pages are consolidated and split, and with which safe sequence number.

use crate::consolidate::{ConsolidateStage, ConsolidationInfo};
use crate::laws::consolidating::{is_chain_of, is_collected, is_consolidate_turn, lemma_starts,
    lemma_step, lemma_taken, takes_the_place};
use crate::laws::forest::{page_ok, Place};
use crate::laws::runs::Moment;
use crate::laws::store::is_chain;
use crate::page::{Page, PageHandle, PageInfo, PageKind, PageTier, ROOT_ID};
use crate::reconcile::{ReconcileOp, ReconcileStage, ReconcileTurn};
use crate::restructure::{restructure_starts, RestructureOp, RestructureTurn};
use crate::split::{SplitOp, SplitStage};
use crate::tree::{consolidates, splits, Options};
use crate::turn::{Action, CacheOption, Error, Event, Next, Turn};
use crate::write::{WriteOp, WriteStage, WriteTurn};
use std::time::Duration;
use vstd::prelude::*;

verus! {

/// A chain of so many pages is too long. Inner chains may be half as long as leaf chains, and
/// a page that stands alone is never too long.
pub open spec fn is_too_long(options: Options, tier: PageTier, chain_len: int) -> bool {
    let allowed = match tier {
        PageTier::Leaf => options.page_chain_length as int,
        PageTier::Inner => options.page_chain_length as int / 2,
    };
    chain_len > 1 && chain_len > allowed
}

/// A page of so many bytes is too large. Inner pages may be half as large as leaf pages.
pub open spec fn is_too_large(options: Options, tier: PageTier, size: int) -> bool {
    match tier {
        PageTier::Leaf => size > options.page_size,
        PageTier::Inner => size > options.page_size as int / 2,
    }
}

/// A page is to be consolidated exactly if its chain is too long, and to be split exactly if it
/// is too large and stands alone.
pub proof fn law_pages_are_kept_small(options: Options, page: PageInfo)
    ensures
        consolidates(options, page) <==> is_too_long(options, page.tier, page.chain_len as int),
        splits(options, page) <==> is_too_large(options, page.tier, page.size as int)
            && page.chain_next == 0,
{
}

/// The turn asks to read the page as the first one of its chain, to consolidate the chain
/// for readers at the safe sequence number or later.
pub open spec fn starts_to_consolidate(
    turn: Next<RestructureOp, Result<(), Error>>,
    at: PageHandle,
    safe_lsn: u64,
) -> bool {
    &&& turn matches Next::Run(RestructureOp::Consolidate(op), action)
    &&& op.at == at
    &&& op.safe_lsn == safe_lsn
    &&& action == Action::ReadPage(at.addr, CacheOption::RefillColdWhenNotFull)
}

/// A restructuring starts to consolidate the page that it was given, with the safe sequence
/// number of the transaction.
pub proof fn law_restructuring_goes_by_the_safe_number(
    options: Options,
    at: PageHandle,
    safe_lsn: u64,
    now: Duration,
    turn: RestructureTurn,
)
    requires
        at.addr != 0,
        restructure_starts(options, at, safe_lsn, now, turn),
    ensures
        starts_to_consolidate(turn.next, at, safe_lsn),
        turn.notes@.len() == 0,
{
}

/// The next turn of the restructuring of a page that is consolidated.
pub open spec fn goes_by(
    turn: Next<RestructureOp, Result<(), Error>>,
    at: PageHandle,
    safe_lsn: u64,
) -> bool {
    turn matches Next::Run(RestructureOp::Consolidate(op), _) ==> op.at == at && op.safe_lsn
        == safe_lsn
}

/// A restructuring keeps to its page and to its safe sequence number. Once the new page is in
/// place it is split if it is too large and stands alone, and that is all; a consolidation that
/// fails is the failure of the restructuring, and whether a split succeeds does not matter.
pub proof fn law_restructuring_splits_what_is_too_large(
    op: RestructureOp,
    options: Options,
    now: Duration,
    event: Event,
    turn: RestructureTurn,
)
    requires
        op.steps_to(options, now, event, turn),
    ensures
        op matches RestructureOp::Consolidate(c) ==> {
            &&& goes_by(turn.next, c.at, c.safe_lsn)
            &&& c.stage matches ConsolidateStage::Replace { new, .. } ==> (event is Replaced ==> {
                let alone = new.page.chain_next == 0;
                let large = is_too_large(options, new.page.tier, new.page.size as int);
                if alone && large && new.page.kind is Data && (new.id != ROOT_ID || (
                new.page.epoch == 0 && new.page.chain_len == 1)) {
                    turn.next == Next::<RestructureOp, Result<(), Error>>::Run(
                        RestructureOp::Split(
                            SplitOp { at: new, start_at: now, stage: SplitStage::Read },
                        ),
                        Action::ReadPage(new.addr, CacheOption::Default),
                    )
                } else if !(alone && large) || !(new.page.kind is Data) {
                    turn.next == Next::<RestructureOp, Result<(), Error>>::Done(Ok(()))
                } else {
                    turn.next is Halt
                }
            })
            &&& c.stage is Replace && event is ReplaceFailed ==> turn.next == Next::<
                RestructureOp,
                Result<(), Error>,
            >::Done(Err(Error::Again))
            &&& (c.stage is Collect || c.stage is Build) ==> (event matches Event::Failed(e)
                ==> turn.next == Next::<RestructureOp, Result<(), Error>>::Done(Err(e)))
        },
        op is Split ==> match turn.next {
            Next::Run(next, _) => next is Split,
            Next::Done(result) => result is Ok,
            Next::Halt(_) => true,
        },
{
}

/// What a turn of a restructuring of the chain has come to, as long as it consolidates.
pub open spec fn is_restructure_turn(
    pages: Map<u64, Page>,
    at: PageHandle,
    chain: Seq<Page>,
    safe_lsn: u64,
    turn: RestructureTurn,
) -> bool {
    turn.next matches Next::Run(RestructureOp::Consolidate(op), action) ==> is_consolidate_turn(
        pages,
        at,
        chain,
        safe_lsn,
        Turn { notes: turn.notes, next: Next::Run(op, action) },
    )
}

/// The turns of a restructuring follow from the events; pages that have been read stay as
/// they are.
pub open spec fn is_restructure_course(
    pages: Map<u64, Page>,
    at: PageHandle,
    safe_lsn: u64,
    options: Options,
    start_at: Duration,
    moments: Seq<Moment>,
    turns: Seq<RestructureTurn>,
) -> bool {
    &&& turns.len() == moments.len() + 1
    &&& restructure_starts(options, at, safe_lsn, start_at, turns[0])
    &&& forall|i: int|
        0 <= i < moments.len() ==> #[trigger] is_restructure_step(pages, moments, turns, i)
}

/// The step is handed what came of the action that the turn before it asked for.
pub open spec fn is_restructure_step(
    pages: Map<u64, Page>,
    moments: Seq<Moment>,
    turns: Seq<RestructureTurn>,
    i: int,
) -> bool {
    let moment = moments[i];
    &&& turns[i].next matches Next::Run(op, action)
    &&& action matches Action::ReadPage(addr, _) ==> moment.event is Failed || moment.event
        == Event::Page(pages[addr])
    &&& op.steps_to(moment.options, moment.now, moment.event, turns[i + 1])
}

proof fn lemma_restructure_course(
    pages: Map<u64, Page>,
    at: PageHandle,
    chain: Seq<Page>,
    safe_lsn: u64,
    options: Options,
    start_at: Duration,
    moments: Seq<Moment>,
    turns: Seq<RestructureTurn>,
    n: int,
)
    requires
        is_chain_of(pages, at, chain),
        is_restructure_course(pages, at, safe_lsn, options, start_at, moments, turns),
        0 <= n <= moments.len(),
    ensures
        is_restructure_turn(pages, at, chain, safe_lsn, turns[n]),
    decreases n,
{
    if n == 0 {
        match turns[0].next {
            Next::Run(RestructureOp::Consolidate(op), action) => {
                let first = Turn { notes: turns[0].notes, next: Next::Run(op, action) };
                lemma_starts(pages, at, chain, safe_lsn, start_at, first);
            },
            _ => {},
        }
    } else {
        lemma_restructure_course(
            pages,
            at,
            chain,
            safe_lsn,
            options,
            start_at,
            moments,
            turns,
            n - 1,
        );
        assert(is_restructure_step(pages, moments, turns, n - 1));
        let moment = moments[n - 1];
        match (turns[n - 1].next, turns[n].next) {
            (
                Next::Run(RestructureOp::Consolidate(op), action),
                Next::Run(RestructureOp::Consolidate(next), asked),
            ) => {
                let given = Turn { notes: turns[n - 1].notes, next: Next::Run(op, action) };
                let turn = Turn { notes: turns[n].notes, next: Next::Run(next, asked) };
                lemma_step(pages, at, chain, safe_lsn, given, op, action, moment, turn);
            },
            _ => {},
        }
    }
}

/// Whatever comes of it: the page that a restructuring has built to take the place of pages of
/// the chain shows every reader at the safe sequence number of the transaction or later what
/// the chain showed, and sends keys where the chain sent them.
pub proof fn law_restructuring_changes_no_read(
    pages: Map<u64, Page>,
    at: PageHandle,
    chain: Seq<Page>,
    place: Place,
    safe_lsn: u64,
    options: Options,
    start_at: Duration,
    moments: Seq<Moment>,
    turns: Seq<RestructureTurn>,
    i: int,
    size: usize,
)
    requires
        page_ok(chain, place),
        is_chain(pages, at.addr, chain),
        at.page == chain[0].info,
        is_restructure_course(pages, at, safe_lsn, options, start_at, moments, turns),
        0 <= i < turns.len(),
        turns[i].next matches Next::Run(RestructureOp::Consolidate(op), _) && op.stage is Build,
    ensures
        turns[i].next matches Next::Run(RestructureOp::Consolidate(op), Action::BuildPage(draft))
            && exists|page: Page, n: int| #[trigger]
            takes_the_place(chain, place, safe_lsn, page, n) && page.items == draft.items
                && page.info == (PageInfo {
                tier: at.page.tier,
                kind: PageKind::Data,
                epoch: at.page.epoch,
                chain_len: chain[n - 1].info.chain_len,
                chain_next: chain[n - 1].info.chain_next,
                size,
            }),
{
    assert forall|k: int| 0 <= k < chain.len() implies (#[trigger] chain[k]).info.tier
        == at.page.tier by {
        assert(chain[0].info.tier == at.page.tier);
    }
    lemma_restructure_course(
        pages,
        at,
        chain,
        safe_lsn,
        options,
        start_at,
        moments,
        turns,
        i,
    );
    match turns[i].next {
        Next::Run(RestructureOp::Consolidate(op), action) => {
            let items = action->BuildPage_0.items;
            let last_page = op.stage->Build_last_page;
            let page_addrs = op.stage->Build_page_addrs@;
            let (info, n) = choose|info: ConsolidationInfo, n: int| #[trigger]
                is_collected(at, chain, safe_lsn, items, last_page, page_addrs, info, n);
            assert(chain.take(n).last() == chain[n - 1]);
            let page = Page {
                info: PageInfo {
                    tier: at.page.tier,
                    kind: PageKind::Data,
                    epoch: at.page.epoch,
                    chain_len: chain[n - 1].info.chain_len,
                    chain_next: chain[n - 1].info.chain_next,
                    size,
                },
                items,
            };
            lemma_taken(at, chain, place, safe_lsn, items, last_page, page_addrs, info, n, page);
            assert(takes_the_place(chain, place, safe_lsn, page, n));
        },
        _ => {},
    }
}

/// The chain length of a page that was put in front of a chain.
pub open spec fn one_more(chain_len: u8) -> int {
    if chain_len == u8::MAX {
        u8::MAX as int
    } else {
        chain_len + 1
    }
}

/// Once the page of a write is in place, the leaf page is consolidated exactly if its chain
/// has become too long, with the safe sequence number of the transaction; else the write is
/// done.
pub proof fn law_write_consolidates_long_chains(
    op: WriteOp,
    options: Options,
    safe_lsn: u64,
    now: Duration,
    turn: WriteTurn,
)
    requires
        op.steps_to(options, safe_lsn, now, Event::Updated, turn),
        op.stage is Update,
        op.stage->Update_new_addr != 0,
    ensures
        ({
            let at = op.stage->Update_at;
            let len = one_more(at.page.chain_len);
            if is_too_long(options, PageTier::Leaf, len) {
                &&& turn.next matches Next::Run(next, action)
                &&& next.stage matches WriteStage::Restructure(restructuring)
                &&& starts_to_consolidate(
                    Next::Run(restructuring, action),
                    PageHandle {
                        id: at.id,
                        addr: op.stage->Update_new_addr,
                        page: PageInfo {
                            tier: PageTier::Leaf,
                            kind: PageKind::Data,
                            epoch: at.page.epoch,
                            chain_len: len as u8,
                            chain_next: at.addr,
                            size: op.stage->Update_size,
                        },
                    },
                    safe_lsn,
                )
            } else {
                turn.next == Next::<WriteOp, Result<(), Error>>::Done(Ok(()))
            }
        }),
{
}

/// Once the page of a reconciliation is in place, the parent is consolidated exactly if its
/// chain has become too long, with the safe sequence number of the transaction; else the
/// reconciliation is done.
pub proof fn law_reconciliation_consolidates_long_chains(
    op: ReconcileOp,
    options: Options,
    safe_lsn: u64,
    now: Duration,
    turn: ReconcileTurn,
)
    requires
        op.steps_to(options, safe_lsn, now, Event::Updated, turn),
        op.stage is Update,
        op.stage->new.addr != 0,
    ensures
        ({
            let new = op.stage->new;
            if is_too_long(options, new.page.tier, new.page.chain_len as int) {
                &&& turn.next matches Next::Run(next, action)
                &&& next.stage matches ReconcileStage::Restructure(restructuring)
                &&& starts_to_consolidate(Next::Run(restructuring, action), new, safe_lsn)
            } else {
                turn.next == Next::<ReconcileOp, Result<(), Error>>::Done(Ok(()))
            }
        }),
{
}

/// A restructuring that a write or a reconciliation has started goes on to its end, and
/// whatever comes of it, the write or the reconciliation has succeeded.
pub proof fn law_restructuring_is_seen_through(
    restructuring: RestructureOp,
    options: Options,
    safe_lsn: u64,
    now: Duration,
    event: Event,
    write: WriteOp,
    write_turn: WriteTurn,
    reconcile: ReconcileOp,
    reconcile_turn: ReconcileTurn,
)
    requires
        write.stage == WriteStage::Restructure(restructuring),
        write.steps_to(options, safe_lsn, now, event, write_turn),
        reconcile.stage == ReconcileStage::Restructure(restructuring),
        reconcile.steps_to(options, safe_lsn, now, event, reconcile_turn),
    ensures
        exists|turn: RestructureTurn| #[trigger]
            restructuring.steps_to(options, now, event, turn) && match turn.next {
                Next::Run(op, action) => write_turn.next matches Next::Run(next, asked)
                    && next.stage == WriteStage::Restructure(op) && asked == action,
                Next::Done(_) => write_turn.next == Next::<WriteOp, Result<(), Error>>::Done(
                    Ok(()),
                ),
                Next::Halt(halt) => write_turn.next == Next::<WriteOp, Result<(), Error>>::Halt(
                    halt,
                ),
            },
        exists|turn: RestructureTurn| #[trigger]
            restructuring.steps_to(options, now, event, turn) && match turn.next {
                Next::Run(op, action) => reconcile_turn.next matches Next::Run(next, asked)
                    && next.stage == ReconcileStage::Restructure(op) && asked == action,
                Next::Done(_) => reconcile_turn.next == Next::<
                    ReconcileOp,
                    Result<(), Error>,
                >::Done(Ok(())),
                Next::Halt(halt) => reconcile_turn.next == Next::<
                    ReconcileOp,
                    Result<(), Error>,
                >::Halt(halt),
            },
{
}

} // verus!
