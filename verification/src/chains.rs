//! Chains of cities: the pieces of a tour under construction. A chain is
//! a sequence of cities in which each is joined to the next; a closed
//! chain also joins its last city to its first. Each city keeps the list
//! of the cities it is joined to, in the order in which they were joined.

use vstd::prelude::*;
use crate::tour::no_repeats;

verus! {

/// The city before position `p` of the chain, if there is one.
pub open spec fn left_of(chain: Seq<usize>, p: int, closed: bool) -> Option<usize> {
    if p > 0 {
        Some(chain[p - 1])
    } else if closed {
        Some(chain[chain.len() - 1])
    } else {
        None
    }
}

/// The city after position `p` of the chain, if there is one.
pub open spec fn right_of(chain: Seq<usize>, p: int, closed: bool) -> Option<usize> {
    if p + 1 < chain.len() {
        Some(chain[p + 1])
    } else if closed {
        Some(chain[0])
    } else {
        None
    }
}

/// The list `joined` holds the two cities, as far as they exist, in
/// either order, and nothing else.
pub open spec fn lists(joined: Seq<usize>, one: Option<usize>, other: Option<usize>) -> bool {
    match (one, other) {
        (None, None) => joined.len() == 0,
        (Some(x), None) => joined.len() == 1 && joined[0] == x,
        (None, Some(y)) => joined.len() == 1 && joined[0] == y,
        (Some(x), Some(y)) => joined.len() == 2 && ((joined[0] == x && joined[1] == y) || (joined[0]
            == y && joined[1] == x)),
    }
}

/// The lists of the city at position `p` of the chain hold its neighbours
/// in the chain.
pub open spec fn lists_at(adj: Seq<Vec<usize>>, chain: Seq<usize>, p: int, closed: bool) -> bool {
    chain[p] < adj.len() && lists(
        adj[chain[p] as int]@,
        left_of(chain, p, closed),
        right_of(chain, p, closed),
    )
}

/// Every city of the chain is joined to exactly its neighbours in the chain.
pub open spec fn chain_lists(adj: Seq<Vec<usize>>, chain: Seq<usize>, closed: bool) -> bool {
    forall|p: int| 0 <= p < chain.len() ==> #[trigger] lists_at(adj, chain, p, closed)
}

/// `adj` with `v` appended to the list of `u`, and `u` to the list of `v`.
pub open spec fn is_joined(before: Seq<Vec<usize>>, after: Seq<Vec<usize>>, u: usize, v: usize) -> bool {
    &&& after.len() == before.len()
    &&& u < before.len()
    &&& v < before.len()
    &&& u != v
    &&& after[u as int]@ == before[u as int]@.push(v)
    &&& after[v as int]@ == before[v as int]@.push(u)
    &&& forall|w: int| 0 <= w < before.len() && w != u && w != v ==> after[w]@ == before[w]@
}

/// An open chain read backwards is a chain of the same joins.
pub proof fn lemma_reverse_chain_lists(adj: Seq<Vec<usize>>, chain: Seq<usize>)
    requires
        chain_lists(adj, chain, false),
    ensures
        chain_lists(adj, chain.reverse(), false),
{
    let back = chain.reverse();
    assert forall|p: int| 0 <= p < back.len() implies #[trigger] lists_at(adj, back, p, false) by {
        let q = chain.len() - 1 - p;
        assert(lists_at(adj, chain, q, false));
        assert(back[p] == chain[q]);
        if p > 0 {
            assert(back[p - 1] == chain[q + 1]);
        }
        if p + 1 < back.len() {
            assert(back[p + 1] == chain[q - 1]);
        }
    }
}

/// Two open chains, joined from the last city of the first to the first
/// city of the second, form one open chain.
pub proof fn lemma_join_chain_lists(
    before: Seq<Vec<usize>>,
    after: Seq<Vec<usize>>,
    first: Seq<usize>,
    second: Seq<usize>,
    u: usize,
    v: usize,
)
    requires
        first.len() >= 1,
        second.len() >= 1,
        first.last() == u,
        second[0] == v,
        no_repeats(first + second),
        chain_lists(before, first, false),
        chain_lists(before, second, false),
        is_joined(before, after, u, v),
    ensures
        chain_lists(after, first + second, false),
{
    let whole = first + second;
    let split = first.len() as int;
    assert forall|p: int| 0 <= p < whole.len() implies #[trigger] lists_at(
        after,
        whole,
        p,
        false,
    ) by {
        if p < split {
            assert(lists_at(before, first, p, false));
            assert(whole[p] == first[p]);
            if p > 0 {
                assert(whole[p - 1] == first[p - 1]);
            }
            if p < split - 1 {
                assert(whole[p + 1] == first[p + 1]);
                assert(whole[p] != whole[split - 1]);
                assert(whole[p] != whole[split]);
            } else {
                assert(whole[p + 1] == second[0]);
            }
        } else {
            let q = p - split;
            assert(lists_at(before, second, q, false));
            assert(whole[p] == second[q]);
            if q > 0 {
                assert(whole[p - 1] == second[q - 1]);
                assert(whole[split - 1] != whole[p]);
                assert(whole[split] != whole[p]);
            } else {
                assert(whole[p - 1] == first[split - 1]);
            }
            if p + 1 < whole.len() {
                assert(whole[p + 1] == second[q + 1]);
            }
        }
    }
}

/// An open chain of two or more cities, joined from its last city to its
/// first, is a closed chain.
pub proof fn lemma_close_chain_lists(
    before: Seq<Vec<usize>>,
    after: Seq<Vec<usize>>,
    chain: Seq<usize>,
    u: usize,
    v: usize,
)
    requires
        chain.len() >= 2,
        (chain[0] == u && chain.last() == v) || (chain[0] == v && chain.last() == u),
        no_repeats(chain),
        chain_lists(before, chain, false),
        is_joined(before, after, u, v),
    ensures
        chain_lists(after, chain, true),
{
    let end = chain.len() - 1;
    assert forall|p: int| 0 <= p < chain.len() implies #[trigger] lists_at(
        after,
        chain,
        p,
        true,
    ) by {
        assert(lists_at(before, chain, p, false));
        if 0 < p < end {
            assert(chain[0] != chain[p]);
            assert(chain[p] != chain[end]);
        }
    }
}

/// Joins made elsewhere leave a chain as it is.
pub proof fn lemma_untouched_chain_lists(
    before: Seq<Vec<usize>>,
    after: Seq<Vec<usize>>,
    chain: Seq<usize>,
    u: usize,
    v: usize,
    closed: bool,
)
    requires
        chain_lists(before, chain, closed),
        is_joined(before, after, u, v),
        !chain.contains(u),
        !chain.contains(v),
    ensures
        chain_lists(after, chain, closed),
{
    assert forall|p: int| 0 <= p < chain.len() implies #[trigger] lists_at(
        after,
        chain,
        p,
        closed,
    ) by {
        assert(lists_at(before, chain, p, closed));
        assert(chain.contains(chain[p]));
    }
}

/// The chain read from position `k` on, once around.
pub open spec fn rotated(chain: Seq<usize>, k: int) -> Seq<usize> {
    chain.subrange(k, chain.len() as int) + chain.subrange(0, k)
}

/// The chain read from its first city backwards, once around.
pub open spec fn reflected(chain: Seq<usize>) -> Seq<usize> {
    Seq::new(chain.len(), |k: int| if k == 0 { chain[0] } else { chain[chain.len() - k] })
}

/// A closed chain read from another of its cities is a closed chain of
/// the same joins.
pub proof fn lemma_rotate_closed(adj: Seq<Vec<usize>>, chain: Seq<usize>, k: int)
    requires
        0 <= k < chain.len(),
        chain_lists(adj, chain, true),
    ensures
        chain_lists(adj, rotated(chain, k), true),
        rotated(chain, k).len() == chain.len(),
        rotated(chain, k)[0] == chain[k],
{
    let n = chain.len() as int;
    let turned = rotated(chain, k);
    assert forall|p: int| 0 <= p < turned.len() implies #[trigger] lists_at(
        adj,
        turned,
        p,
        true,
    ) by {
        let q = if p < n - k { p + k } else { p - (n - k) };
        assert(turned[p] == chain[q]);
        assert(lists_at(adj, chain, q, true));
        let before = if p > 0 { p - 1 } else { n - 1 };
        let after = if p + 1 < n { p + 1 } else { 0 };
        let q_before = if before < n - k { before + k } else { before - (n - k) };
        let q_after = if after < n - k { after + k } else { after - (n - k) };
        assert(turned[before] == chain[q_before]);
        assert(turned[after] == chain[q_after]);
    }
}

/// A closed chain read backwards from its first city is a closed chain
/// of the same joins.
pub proof fn lemma_reflect_closed(adj: Seq<Vec<usize>>, chain: Seq<usize>)
    requires
        chain.len() >= 1,
        chain_lists(adj, chain, true),
    ensures
        chain_lists(adj, reflected(chain), true),
{
    let n = chain.len() as int;
    let back = reflected(chain);
    assert forall|p: int| 0 <= p < back.len() implies #[trigger] lists_at(adj, back, p, true) by {
        let q = if p == 0 { 0 } else { n - p };
        assert(back[p] == chain[q]);
        assert(lists_at(adj, chain, q, true));
    }
}

} // verus!
