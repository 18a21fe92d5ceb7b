//! Chains of pages at their addresses.

use crate::page::{base_header, chained_header, Page, BASE_CHAIN_LEN};
use vstd::prelude::*;

verus! {

/// The chain stands at the address: each page at the address that the page before it names.
pub open spec fn is_chain(pages: Map<u64, Page>, addr: u64, chain: Seq<Page>) -> bool
    decreases chain.len(),
{
    if chain.len() == 0 {
        addr == 0
    } else {
        &&& addr != 0
        &&& pages.dom().contains(addr)
        &&& pages[addr] == chain[0]
        &&& is_chain(pages, chain[0].info.chain_next, chain.drop_first())
    }
}

/// The addresses of the pages of a chain.
pub open spec fn addrs_of(addr: u64, chain: Seq<Page>) -> Seq<u64>
    decreases chain.len(),
{
    if chain.len() == 0 {
        Seq::empty()
    } else {
        seq![addr] + addrs_of(chain[0].info.chain_next, chain.drop_first())
    }
}

/// Pages at other addresses do not matter to a chain.
proof fn lemma_chain_elsewhere(
    pages: Map<u64, Page>,
    others: Map<u64, Page>,
    addr: u64,
    chain: Seq<Page>,
)
    requires
        is_chain(pages, addr, chain),
        forall|i: int|
            0 <= i < addrs_of(addr, chain).len() ==> others.dom().contains(
                #[trigger] addrs_of(addr, chain)[i],
            ) && others[addrs_of(addr, chain)[i]] == pages[addrs_of(addr, chain)[i]],
    ensures
        is_chain(others, addr, chain),
    decreases chain.len(),
{
    if chain.len() > 0 {
        let next = chain[0].info.chain_next;
        let rest = chain.drop_first();
        let addrs = addrs_of(addr, chain);
        assert(addrs[0] == addr);
        assert forall|i: int| 0 <= i < addrs_of(next, rest).len() implies others.dom().contains(
            #[trigger] addrs_of(next, rest)[i],
        ) && others[addrs_of(next, rest)[i]] == pages[addrs_of(next, rest)[i]] by {
            assert(addrs[i + 1] == addrs_of(next, rest)[i]);
        }
        lemma_chain_elsewhere(pages, others, next, rest);
    }
}

/// The pages of a chain are in the store.
proof fn lemma_chain_is_stored(pages: Map<u64, Page>, addr: u64, chain: Seq<Page>, i: int)
    requires
        is_chain(pages, addr, chain),
        0 <= i < addrs_of(addr, chain).len(),
    ensures
        pages.dom().contains(addrs_of(addr, chain)[i]),
    decreases chain.len(),
{
    if i > 0 {
        lemma_chain_is_stored(pages, chain[0].info.chain_next, chain.drop_first(), i - 1);
    }
}

/// At one address stands one chain.
proof fn lemma_one_chain(pages: Map<u64, Page>, addr: u64, a: Seq<Page>, b: Seq<Page>)
    requires
        is_chain(pages, addr, a),
        is_chain(pages, addr, b),
    ensures
        a.len() == b.len(),
    decreases a.len(),
{
    if a.len() > 0 {
        lemma_one_chain(pages, a[0].info.chain_next, a.drop_first(), b.drop_first());
    }
}

/// From every page of a chain on, the rest of it stands at the page's address.
proof fn lemma_chain_from(pages: Map<u64, Page>, addr: u64, chain: Seq<Page>, i: int)
    requires
        is_chain(pages, addr, chain),
        0 <= i < chain.len(),
    ensures
        addrs_of(addr, chain).len() == chain.len(),
        is_chain(pages, addrs_of(addr, chain)[i], chain.skip(i)),
        addrs_of(addr, chain)[i] != 0,
    decreases chain.len(),
{
    let next = chain[0].info.chain_next;
    let rest = chain.drop_first();
    if i == 0 {
        assert(chain.skip(0) =~= chain);
        if rest.len() > 0 {
            lemma_chain_from(pages, next, rest, 0);
        }
    } else {
        lemma_chain_from(pages, next, rest, i - 1);
        assert(rest.skip(i - 1) =~= chain.skip(i));
        assert(addrs_of(addr, chain)[i] == addrs_of(next, rest)[i - 1]);
    }
}

/// No two pages of a chain stand at one address.
pub proof fn law_chain_meets_no_page_twice(
    pages: Map<u64, Page>,
    addr: u64,
    chain: Seq<Page>,
    i: int,
    j: int,
)
    requires
        is_chain(pages, addr, chain),
        0 <= i < j < chain.len(),
    ensures
        addrs_of(addr, chain).len() == chain.len(),
        addrs_of(addr, chain)[i] != addrs_of(addr, chain)[j],
{
    lemma_chain_from(pages, addr, chain, i);
    lemma_chain_from(pages, addr, chain, j);
    if addrs_of(addr, chain)[i] == addrs_of(addr, chain)[j] {
        lemma_one_chain(pages, addrs_of(addr, chain)[i], chain.skip(i), chain.skip(j));
    }
}

/// A new page whose header names the address of a chain stands in front of that chain.
pub proof fn law_new_page_stands_in_front(
    pages: Map<u64, Page>,
    addr: u64,
    chain: Seq<Page>,
    new_addr: u64,
    page: Page,
)
    requires
        is_chain(pages, addr, chain),
        new_addr != 0,
        !pages.dom().contains(new_addr),
        page.info.chain_next == addr,
    ensures
        is_chain(pages.insert(new_addr, page), new_addr, seq![page] + chain),
{
    let more = pages.insert(new_addr, page);
    let all = seq![page] + chain;
    assert forall|i: int| 0 <= i < addrs_of(addr, chain).len() implies more.dom().contains(
        #[trigger] addrs_of(addr, chain)[i],
    ) && more[addrs_of(addr, chain)[i]] == pages[addrs_of(addr, chain)[i]] by {
        lemma_chain_is_stored(pages, addr, chain, i);
    }
    lemma_chain_elsewhere(pages, more, addr, chain);
    assert(all.drop_first() =~= chain);
    assert(all[0] == page);
}

/// The chain behind the newest pages stands where the last of these says.
proof fn lemma_chain_behind(
    pages: Map<u64, Page>,
    addr: u64,
    prefix: Seq<Page>,
    rest: Seq<Page>,
)
    requires
        is_chain(pages, addr, prefix + rest),
        prefix.len() > 0,
    ensures
        is_chain(pages, prefix.last().info.chain_next, rest),
        addrs_of(addr, prefix + rest) == addrs_of(addr, prefix) + addrs_of(
            prefix.last().info.chain_next,
            rest,
        ),
    decreases prefix.len(),
{
    let all = prefix + rest;
    let behind = prefix.drop_first();
    assert(all[0] == prefix[0]);
    assert(all.drop_first() =~= behind + rest);
    if prefix.len() > 1 {
        assert(behind.last() == prefix.last());
        lemma_chain_behind(pages, prefix[0].info.chain_next, behind, rest);
    } else {
        assert(behind + rest =~= rest);
        assert(behind =~= Seq::<Page>::empty());
        assert(addrs_of(prefix[0].info.chain_next, behind) =~= Seq::<u64>::empty());
    }
    assert(addrs_of(addr, all) =~= addrs_of(addr, prefix) + addrs_of(
        prefix.last().info.chain_next,
        rest,
    ));
}

/// A new page whose header goes on where the newest pages of a chain end takes their place,
/// and the chain does not miss them when they are deallocated.
pub proof fn law_new_page_takes_the_place(
    pages: Map<u64, Page>,
    addr: u64,
    prefix: Seq<Page>,
    rest: Seq<Page>,
    new_addr: u64,
    page: Page,
)
    requires
        is_chain(pages, addr, prefix + rest),
        prefix.len() > 0,
        new_addr != 0,
        !pages.dom().contains(new_addr),
        page.info.chain_next == prefix.last().info.chain_next,
    ensures
        is_chain(
            pages.insert(new_addr, page).remove_keys(addrs_of(addr, prefix).to_set()),
            new_addr,
            seq![page] + rest,
        ),
{
    let next = prefix.last().info.chain_next;
    let gone = addrs_of(addr, prefix);
    let few = pages.insert(new_addr, page).remove_keys(gone.to_set());
    let all = seq![page] + rest;
    lemma_chain_behind(pages, addr, prefix, rest);
    lemma_addrs_count(addr, prefix);
    lemma_addrs_count(next, rest);
    assert forall|i: int| 0 <= i < addrs_of(next, rest).len() implies few.dom().contains(
        #[trigger] addrs_of(next, rest)[i],
    ) && few[addrs_of(next, rest)[i]] == pages[addrs_of(next, rest)[i]] by {
        lemma_chain_is_stored(pages, next, rest, i);
        let a = addrs_of(next, rest)[i];
        if gone.contains(a) {
            let k = choose|k: int| 0 <= k < gone.len() && gone[k] == a;
            law_chain_meets_no_page_twice(
                pages,
                addr,
                prefix + rest,
                k,
                prefix.len() + i,
            );
        }
    }
    lemma_chain_elsewhere(pages, few, next, rest);
    assert(!gone.contains(new_addr)) by {
        if gone.contains(new_addr) {
            let k = choose|k: int| 0 <= k < gone.len() && gone[k] == new_addr;
            lemma_chain_is_stored(pages, addr, prefix + rest, k);
            assert(addrs_of(addr, prefix + rest)[k] == gone[k]);
        }
    }
    assert(all.drop_first() =~= rest);
    assert(all[0] == page);
}

/// A chain length as a header holds it.
pub open spec fn saturated(n: nat) -> nat {
    if n < u8::MAX {
        n
    } else {
        u8::MAX as nat
    }
}

/// Every header of the chain counts the pages from its own on.
pub open spec fn counts_pages(chain: Seq<Page>) -> bool {
    forall|i: int|
        0 <= i < chain.len() ==> (#[trigger] chain[i]).info.chain_len == saturated(
            (chain.len() - i) as nat,
        )
}

/// The headers of pages that are put in front of a chain, and of pages that take the place of
/// its newest ones, count the pages of the chain; so a page behind which nothing stands is one
/// whose chain length is one.
pub proof fn law_headers_count_the_pages(
    prefix: Seq<Page>,
    rest: Seq<Page>,
    page: Page,
    epoch: u64,
    addr: u64,
)
    requires
        prefix.len() > 0,
        counts_pages(prefix + rest),
    ensures
        page.info.chain_len == chained_header(epoch, prefix[0].info, addr).chain_len
            ==> counts_pages(seq![page] + (prefix + rest)),
        page.info.chain_len == prefix.last().info.chain_len ==> counts_pages(seq![page] + rest),
        prefix.len() + rest.len() == 1 ==> prefix[0].info.chain_len == BASE_CHAIN_LEN,
        page.info.chain_len == base_header().chain_len ==> counts_pages(seq![page]),
{
    let all = prefix + rest;
    let front = seq![page] + all;
    let few = seq![page] + rest;
    assert(all[0] == prefix[0]);
    assert(all[prefix.len() - 1] == prefix.last());
    if page.info.chain_len == chained_header(epoch, prefix[0].info, addr).chain_len {
        assert forall|i: int| 0 <= i < front.len() implies (#[trigger] front[i]).info.chain_len
            == saturated((front.len() - i) as nat) by {
            if i > 0 {
                assert(front[i] == all[i - 1]);
            }
        }
    }
    if page.info.chain_len == prefix.last().info.chain_len {
        assert forall|i: int| 0 <= i < few.len() implies (#[trigger] few[i]).info.chain_len
            == saturated((few.len() - i) as nat) by {
            if i > 0 {
                assert(few[i] == all[prefix.len() + i - 1]);
            }
        }
    }
}

proof fn lemma_addrs_count(addr: u64, chain: Seq<Page>)
    ensures
        addrs_of(addr, chain).len() == chain.len(),
    decreases chain.len(),
{
    if chain.len() > 0 {
        lemma_addrs_count(chain[0].info.chain_next, chain.drop_first());
    }
}

} // verus!
