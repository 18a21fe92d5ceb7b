//! The pages that an iterator hands out, and where it goes on.

use crate::bytes::{lemma_bytes_le_lt, lemma_bytes_order};
use crate::iter::{count_before, Gather, PageIter, TreeIter};
use crate::laws::collection::{chain_limit, data_values, holds,
    law_gathering_describes_the_chain, law_iterated_page_shows_what_is_found};
use crate::laws::children::{chain_live, chain_wf};
use crate::laws::exchange::{lemma_limited_is_under, lemma_merged_onto_from};
use crate::laws::forest::{law_a_range_leads_to_one_page, lemma_child_of, lemma_visited, page_ok,
    path_ok, read, refer, visit, Forest};
use crate::laws::history::{can_grow, grown, Change};
use crate::laws::inner::child_at;
use crate::laws::iteration::{begins_at, children_passed, law_siblings_follow_without_a_gap,
    lemma_children, lemma_count_before, lemma_siblings_begin};
use crate::laws::order::{lemma_sorted_is_ordered, ordered};
use crate::laws::pursuit::is_referred;
use crate::laws::runs::{aims, extends, lemma_grown_tree, lemma_growth_keeps_aim,
    lemma_reference_aims};
use crate::laws::store::is_chain;
use crate::laws::versions::{is_item, lemma_limited_subset};
use crate::lookup::shown;
use crate::merge::{limit_view, merged, under_limit};
use crate::page::{Index, Key, Page, PageTier, PageView, RangeView, Value};
use crate::turn::Action;
use vstd::prelude::*;

verus! {

/// The key from which on the iterator has not handed out anything yet.
pub open spec fn came_to(iter: TreeIter) -> Option<Seq<u8>> {
    match iter.inner_iter {
        Some(children) => begins_at(
            children.items@,
            limit_view(iter.inner_next),
            children.next as int,
        ),
        None => limit_view(iter.inner_next),
    }
}

/// The children that the iterator has left are those that follow each other up to the end of
/// the inner page, as long as their epochs stay.
pub open spec fn knows_siblings(f: Forest, height: nat, iter: TreeIter) -> bool {
    match iter.inner_iter {
        Some(children) => forall|k: int|
            children.next <= k < children.items@.len() ==> aims(
                f,
                height,
                (#[trigger] children.items@[k]).0@,
                0,
                children.items@[k].1,
                RangeView {
                    start: children.items@[k].0@,
                    end: begins_at(children.items@, limit_view(iter.inner_next), k + 1),
                },
            ),
        None => true,
    }
}

/// Changes of the tree leave what an iterator knows true.
pub proof fn lemma_siblings_later(
    root: Page,
    a: Seq<Change>,
    b: Seq<Change>,
    iter: TreeIter,
)
    requires
        can_grow(root, b),
        extends(a, b),
        knows_siblings(grown(root, a).0, grown(root, a).1, iter),
    ensures
        knows_siblings(grown(root, b).0, grown(root, b).1, iter),
{
    match iter.inner_iter {
        Some(children) => {
            let (f, height) = grown(root, b);
            assert forall|k: int| children.next <= k < children.items@.len() implies aims(
                f,
                height,
                (#[trigger] children.items@[k]).0@,
                0,
                children.items@[k].1,
                RangeView {
                    start: children.items@[k].0@,
                    end: begins_at(children.items@, limit_view(iter.inner_next), k + 1),
                },
            ) by {
                lemma_growth_keeps_aim(
                    root,
                    a,
                    b,
                    children.items@[k].0@,
                    0,
                    children.items@[k].1,
                    RangeView {
                        start: children.items@[k].0@,
                        end: begins_at(children.items@, limit_view(iter.inner_next), k + 1),
                    },
                );
            }
        },
        None => {},
    }
}

/// When the changes had been made, the page was that of the leaf page that was responsible
/// for the key: it holds the keys of that page's range, shows a reader of any of them what the
/// tree held, and stands at the first key that is not before `at`.
pub open spec fn is_page_at(root: Page, c: Seq<Change>, at: Seq<u8>, page: PageIter) -> bool {
    let (f, height) = grown(root, c);
    let range = visit(f, height, at, 0).1;
    &&& range.contains(at)
    &&& ordered(page.items@)
    &&& page.next == count_before(page.items@, at)
    &&& forall|k: int|
        0 <= k < page.items@.len() ==> range.contains((#[trigger] page.items@[k]).0.raw@)
    &&& forall|raw: Seq<u8>, lsn: u64|
        range.contains(raw) ==> #[trigger] shown(page.items@, raw, lsn) == read(
            f,
            height,
            raw,
            lsn,
        )
}

/// The gathering has come to the page at `n` of the chain.
pub open spec fn is_gathering(
    pages: Map<u64, Page>,
    chain: Seq<Page>,
    gather: Gather,
    action: Action,
    n: int,
) -> bool {
    &&& 0 <= n < chain.len()
    &&& holds(gather.pages, chain.take(n))
    &&& limit_view(gather.range_limit) == chain_limit(chain.take(n))
    &&& action matches Action::ReadPage(addr, _) && is_chain(pages, addr, chain.skip(n))
}

/// The whole chain has been gathered.
pub open spec fn is_gathered(chain: Seq<Page>, gather: Gather) -> bool {
    &&& holds(gather.pages, chain)
    &&& limit_view(gather.range_limit) == chain_limit(chain)
}

/// A gathering starts with the first page of the chain.
pub proof fn lemma_gathering_starts(
    pages: Map<u64, Page>,
    chain: Seq<Page>,
    gather: Gather,
    tier: PageTier,
    action: Action,
)
    requires
        chain_wf(chain),
        chain.len() > 0,
        gather.is_new(tier),
        action matches Action::ReadPage(addr, _) && is_chain(pages, addr, chain),
    ensures
        is_gathering(pages, chain, gather, action, 0),
{
    assert(chain[0].wf());
    law_gathering_describes_the_chain(gather, tier, Seq::empty(), chain[0], gather);
    assert(chain.take(0) =~= Seq::<Page>::empty());
    assert(chain.skip(0) =~= chain);
}

/// A gathering goes on page by page, until the chain ends.
pub proof fn lemma_gathering_goes_on(
    pages: Map<u64, Page>,
    chain: Seq<Page>,
    gather: Gather,
    action: Action,
    n: int,
    more: Gather,
)
    requires
        chain_wf(chain),
        is_gathering(pages, chain, gather, action, n),
        gather.with_page(chain[n], more),
    ensures
        pages[action->ReadPage_0] == chain[n],
        chain[n].info.chain_next == 0 ==> is_gathered(chain, more),
        forall|asked: Action|
            chain[n].info.chain_next != 0 && asked is ReadPage && asked->ReadPage_0
                == chain[n].info.chain_next ==> #[trigger] is_gathering(
                pages,
                chain,
                more,
                asked,
                n + 1,
            ),
{
    assert(chain[n].wf());
    law_gathering_describes_the_chain(gather, PageTier::Leaf, chain.take(n), chain[n], more);
    assert(chain.take(n).push(chain[n]) =~= chain.take(n + 1));
    assert(chain.skip(n)[0] == chain[n]);
    assert(chain.skip(n).drop_first() =~= chain.skip(n + 1));
    assert(is_chain(pages, chain[n].info.chain_next, chain.skip(n + 1)));
    if chain[n].info.chain_next == 0 {
        assert(chain.skip(n + 1).len() == 0);
        assert(chain.take(n + 1) =~= chain);
    } else {
        assert(chain.skip(n + 1).len() > 0);
    }
}

/// The items of a gathered leaf chain are those of its page.
pub proof fn lemma_page_is_handed_out(
    root: Page,
    c: Seq<Change>,
    at: Seq<u8>,
    gather: Gather,
    page: PageIter,
)
    requires
        can_grow(root, c),
        ({
            let (f, height) = grown(root, c);
            let (index, range) = visit(f, height, at, 0);
            &&& is_gathered(f.chains[index.id], gather)
            &&& page.next == count_before(page.items@, at) || (page.next == 0 && range.start
                == at)
        }),
        gather.is_leaf_items(page.items@),
    ensures
        is_page_at(root, c, at, page),
{
    let (f, height) = grown(root, c);
    let (index, range) = visit(f, height, at, 0);
    let chain = f.chains[index.id];
    let items = page.items@;
    let values = data_values(chain);
    let limit = chain_limit(chain);
    lemma_grown_tree(root, c);
    lemma_visited(f, height, at, 0);
    assert(page_ok(chain, f.places[index.id]));
    law_iterated_page_shows_what_is_found(chain, gather, items, at, 0);
    assert forall|k: int| 0 <= k < items.len() implies range.contains(
        (#[trigger] items[k]).0.raw@,
    ) by {
        lemma_limited_subset(merged(values), limit, k);
        lemma_limited_is_under(merged(values), limit, k);
        let j = choose|j: int| 0 <= j < merged(values).len() && #[trigger] merged(values)[j]
            == items[k];
        lemma_merged_onto_from(values, Seq::<(Key, Value)>::empty(), j);
        let p = choose|p: int| 0 <= p < values.len() && is_item(items[k], #[trigger] values[p]@);
        let m = choose|m: int| 0 <= m < values[p]@.len() && #[trigger] values[p]@[m] == items[k];
        assert(data_values(chain)[p]@[m] == items[k]);
    }
    assert forall|raw: Seq<u8>, lsn: u64| range.contains(raw) implies #[trigger] shown(
        items,
        raw,
        lsn,
    ) == read(f, height, raw, lsn) by {
        law_iterated_page_shows_what_is_found(chain, gather, items, raw, lsn);
        law_a_range_leads_to_one_page(f, height, at, raw, 0);
    }
    if range.start == at && items.len() > 0 {
        assert(range.contains(items[0].0.raw@));
        lemma_bytes_order(at, items[0].0.raw@);
    }
}

/// Once an iterator has come to the leaf page of the target and has read the parent of that
/// page, it goes on where the leaf page ends.
pub proof fn lemma_siblings_are_known(
    pages: Map<u64, Page>,
    root: Page,
    c: Seq<Change>,
    target: Seq<u8>,
    parent: PageView,
    index: Index,
    range: RangeView,
    gather: Gather,
    iter: TreeIter,
)
    requires
        can_grow(root, c),
        is_referred(pages, root, c, target, 0, parent, index, range),
        is_gathered(grown(root, c).0.chains[parent.at.id], gather),
        limit_view(iter.inner_next) == parent.range->0@.end,
        iter.inner_iter matches Some(children) && {
            &&& gather.is_children(children.items@)
            &&& children.next == children_passed(children.items@, target)
        },
    ensures
        came_to(iter) == range.end,
        knows_siblings(grown(root, c).0, grown(root, c).1, iter),
{
    let (f, height) = grown(root, c);
    let children = iter.inner_iter->0;
    let items = children.items@;
    let chain = f.chains[parent.at.id];
    lemma_grown_tree(root, c);
    lemma_visited(f, height, target, 1);
    assert(path_ok(f, height, target, 1));
    let place = f.places[parent.at.id];
    let end = place.range.end;
    assert(visit(f, height, target, 1).0.id == parent.at.id);
    assert(place.range == parent.range->0@);
    lemma_child_of(chain, place, target);
    assert forall|key: Seq<u8>| #[trigger]
        chain_live(chain, key) is Some && under_limit(
            key,
            chain_limit(chain),
        ) implies under_limit(key, end) by {
        assert(place.range.contains(key));
    }
    lemma_siblings_begin(chain, end, gather, children.items, target);
    assert(refer(f, height, target, 0) == child_at(chain, end, target)->0);
    assert forall|k: int| children.next <= k < items.len() implies aims(
        f,
        height,
        (#[trigger] items[k]).0@,
        0,
        items[k].1,
        RangeView {
            start: items[k].0@,
            end: begins_at(items, limit_view(iter.inner_next), k + 1),
        },
    ) by {
        let start = items[k].0@;
        law_siblings_follow_without_a_gap(chain, end, gather, children.items, target, k);
        lemma_children(chain, end, gather, children.items, start);
        lemma_sorted_is_ordered(items);
        lemma_count_before(items, target, k);
        lemma_bytes_order(target, start);
        lemma_bytes_le_lt(place.range.start, target, start);
        assert(under_limit(start, end));
        assert(place.range.contains(start));
        law_a_range_leads_to_one_page(f, height, target, start, 1);
        assert(refer(f, height, start, 0) == child_at(chain, end, start)->0);
        lemma_reference_aims(f, height, start, 0);
    }
}

} // verus!
