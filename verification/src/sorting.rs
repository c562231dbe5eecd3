//! Ordering positions by keys: a position comes before another if its
//! key is smaller, or if the keys are equal and the position is lower.

use vstd::prelude::*;
use crate::tour::{is_tour, lemma_tour_visits_every_city};

verus! {

/// The order of triples: by the first entry, then the second, then the third.
pub open spec fn triple_le(a: (u64, u64, usize), b: (u64, u64, usize)) -> bool {
    a.0 < b.0 || (a.0 == b.0 && (a.1 < b.1 || (a.1 == b.1 && a.2 <= b.2)))
}

/// No triple is followed by a smaller one.
pub open spec fn is_sorted(items: Seq<(u64, u64, usize)>) -> bool {
    forall|i: int, j: int| 0 <= i < j < items.len() ==> triple_le(items[i], items[j])
}

/// `after` holds the triples of `before` in another order: entry `k` of
/// `after` is entry `perm[k]` of `before`, and `perm` names each position once.
pub open spec fn is_rearrangement(
    perm: Seq<usize>,
    before: Seq<(u64, u64, usize)>,
    after: Seq<(u64, u64, usize)>,
) -> bool {
    &&& after.len() == before.len()
    &&& is_tour(perm, before.len() as int)
    &&& forall|k: int| 0 <= k < after.len() ==> after[k] == before[perm[k] as int]
}

/// Calls the standard library's `sort` on the vector. The standard
/// library orders tuples of integers entry by entry and documents that
/// the call sorts the slice in ascending order; a sort keeps the items and
/// changes only their places.
#[verifier::external_body]
pub(crate) fn sort_triples(items: &mut Vec<(u64, u64, usize)>)
    ensures
        is_sorted(final(items)@),
        exists|perm: Seq<usize>| is_rearrangement(perm, old(items)@, final(items)@),
{
    items.sort();
}

/// The position `a` with its key comes before the position `b` with its.
pub open spec fn comes_before(keys: Seq<(u64, u64)>, a: usize, b: usize) -> bool {
    let ka = keys[a as int];
    let kb = keys[b as int];
    ka.0 < kb.0 || (ka.0 == kb.0 && (ka.1 < kb.1 || (ka.1 == kb.1 && a < b)))
}

/// `order` lists the positions of `keys` by ascending key, positions of
/// equal keys in ascending order.
pub open spec fn is_key_order(order: Seq<usize>, keys: Seq<(u64, u64)>) -> bool {
    &&& is_tour(order, keys.len() as int)
    &&& forall|a: int, b: int| 0 <= a < b < order.len() ==> comes_before(keys, order[a], order[b])
}

/// There is one order by key: two that meet [`is_key_order`] are equal.
pub proof fn lemma_key_order_unique(first: Seq<usize>, second: Seq<usize>, keys: Seq<(u64, u64)>)
    requires
        is_key_order(first, keys),
        is_key_order(second, keys),
    ensures
        first == second,
{
    let n = keys.len() as int;
    assert forall|k: int| 0 <= k < n implies first[k] == second[k] by {
        lemma_orders_agree_to(first, second, keys, k);
    }
    assert(first =~= second);
}

/// Two orders by key agree up to and including position `k`.
proof fn lemma_orders_agree_to(first: Seq<usize>, second: Seq<usize>, keys: Seq<(u64, u64)>, k: int)
    requires
        is_key_order(first, keys),
        is_key_order(second, keys),
        0 <= k < keys.len(),
    ensures
        forall|j: int| 0 <= j <= k ==> first[j] == second[j],
    decreases k,
{
    let n = keys.len() as int;
    if k > 0 {
        lemma_orders_agree_to(first, second, keys, k - 1);
    }
    let a = first[k];
    let b = second[k];
    if a != b {
        // Each stands later in the other order, so each comes before the other.
        lemma_tour_visits_every_city(second, n, a);
        let ia = choose|i: int| 0 <= i < n && second[i] == a;
        if ia < k {
            assert(first[ia] == second[ia]);
            assert(first[ia] != first[k]);
        }
        lemma_tour_visits_every_city(first, n, b);
        let ib = choose|i: int| 0 <= i < n && first[i] == b;
        if ib < k {
            assert(first[ib] == second[ib]);
            assert(second[ib] != second[k]);
        }
        assert(comes_before(keys, second[k], second[ia]));
        assert(comes_before(keys, first[k], first[ib]));
    }
}

/// Lists the positions of `keys` by ascending key, positions of equal
/// keys in ascending order.
pub fn order_by_keys(keys: &[(u64, u64)]) -> (order: Vec<usize>)
    ensures
        is_key_order(order@, keys@),
{
    let n = keys.len();
    let mut items: Vec<(u64, u64, usize)> = Vec::new();
    let mut k: usize = 0;
    while k < n
        invariant
            k <= n,
            n == keys@.len(),
            items@.len() == k,
            forall|i: int| 0 <= i < k ==> items@[i] == (keys@[i].0, keys@[i].1, i as usize),
        decreases n - k,
    {
        items.push((keys[k].0, keys[k].1, k));
        k = k + 1;
    }
    let ghost tagged = items@;
    sort_triples(&mut items);
    let ghost perm = choose|perm: Seq<usize>| is_rearrangement(perm, tagged, items@);
    let mut order: Vec<usize> = Vec::new();
    k = 0;
    while k < n
        invariant
            k <= n,
            n == keys@.len(),
            items@.len() == n,
            tagged.len() == n,
            is_rearrangement(perm, tagged, items@),
            forall|i: int| 0 <= i < n ==> tagged[i] == (keys@[i].0, keys@[i].1, i as usize),
            order@.len() == k,
            forall|i: int| 0 <= i < k ==> order@[i] == perm[i],
        decreases n - k,
    {
        order.push(items[k].2);
        proof {
            assert(items@[k as int] == tagged[perm[k as int] as int]);
        }
        k = k + 1;
    }
    proof {
        assert(order@ =~= perm);
        assert forall|a: int, b: int| 0 <= a < b < order@.len() implies comes_before(
            keys@,
            order@[a],
            order@[b],
        ) by {
            assert(triple_le(items@[a], items@[b]));
            assert(items@[a] == tagged[perm[a] as int]);
            assert(items@[b] == tagged[perm[b] as int]);
            assert(perm[a] != perm[b]);
        }
    }
    order
}

} // verus!
