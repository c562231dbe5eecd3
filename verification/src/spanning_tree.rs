//! Spanning trees of the cities, and why the tree that Prim's algorithm
//! grows is as light as any.
//!
//! A spanning tree is given by the parent of each city on its way to city
//! 0, the root. The proof takes any spanning tree and, one city at a time
//! in the order in which Prim's algorithm took the cities, hangs the city
//! where the algorithm hung it; no such step makes the tree heavier.

use vstd::prelude::*;
use crate::tour::{
    dist, from_city_zero, is_square, is_symmetric, is_tour, lemma_from_city_zero,
    lemma_no_repeats_bounds_length, lemma_tour_visits_every_city, no_repeats, path_length,
    position_of, tour_length,
};
use crate::utils::{cheapest_link, is_prim_order, lemma_cheapest_link, linked_weight};

verus! {

/// `rank` falls along every step from a city to its parent: the steps
/// from any city lead to the root.
pub open spec fn is_ranked(par: Seq<usize>, rank: Seq<int>) -> bool {
    &&& rank.len() == par.len()
    &&& forall|v: int| 0 <= v < par.len() ==> 0 <= #[trigger] rank[v]
    &&& forall|v: int| 1 <= v < par.len() ==> rank[(#[trigger] par[v]) as int] < rank[v]
}

/// `par` names for each of `n` cities its parent in a tree rooted at city 0.
pub open spec fn is_spanning_tree(par: Seq<usize>, n: int) -> bool {
    &&& par.len() == n
    &&& forall|v: int| 0 <= v < n ==> (#[trigger] par[v]) < n
    &&& exists|rank: Seq<int>| is_ranked(par, rank)
}

/// The length of the edge from each city to its parent; none for the root.
pub open spec fn edge_weights(par: Seq<usize>, graph: Seq<Vec<u64>>) -> Seq<int> {
    Seq::new(par.len(), |v: int| if v == 0 { 0 } else { dist(graph, par[v] as int, v) })
}

/// The sum of the entries.
pub open spec fn sum_of(s: Seq<int>) -> int
    decreases s.len(),
{
    if s.len() == 0 {
        0
    } else {
        sum_of(s.drop_last()) + s.last()
    }
}

/// The summed length of the edges of the tree.
pub open spec fn tree_weight(par: Seq<usize>, graph: Seq<Vec<u64>>) -> int {
    sum_of(edge_weights(par, graph))
}

/// `weight` is the weight of a lightest spanning tree of the cities of
/// `graph`: some spanning tree has it and none is lighter.
pub open spec fn is_minimum_spanning_weight(weight: int, graph: Seq<Vec<u64>>) -> bool {
    &&& exists|par: Seq<usize>| #[trigger]
        is_spanning_tree(par, graph.len() as int) && tree_weight(par, graph) == weight
    &&& forall|par: Seq<usize>| #[trigger]
        is_spanning_tree(par, graph.len() as int) ==> weight <= tree_weight(par, graph)
}

/// Changing one entry changes the sum by the difference.
proof fn lemma_sum_update(s: Seq<int>, i: int, value: int)
    requires
        0 <= i < s.len(),
    ensures
        sum_of(s.update(i, value)) == sum_of(s) - s[i] + value,
    decreases s.len(),
{
    let changed = s.update(i, value);
    if i == s.len() - 1 {
        assert(changed.drop_last() =~= s.drop_last());
    } else {
        lemma_sum_update(s.drop_last(), i, value);
        assert(changed.drop_last() =~= s.drop_last().update(i, value));
    }
}

/// Taking one entry out lowers the sum by that entry.
proof fn lemma_sum_remove(s: Seq<int>, i: int)
    requires
        0 <= i < s.len(),
    ensures
        sum_of(s) == sum_of(s.remove(i)) + s[i],
    decreases s.len(),
{
    if i == s.len() - 1 {
        assert(s.remove(i) =~= s.drop_last());
    } else {
        lemma_sum_remove(s.drop_last(), i);
        assert(s.remove(i).drop_last() =~= s.drop_last().remove(i));
        assert(s.remove(i).last() == s.last());
    }
}

/// No entry of a sequence of numbers that are not negative exceeds the sum.
proof fn lemma_sum_bounds(s: Seq<int>, i: int)
    requires
        0 <= i < s.len(),
        forall|v: int| 0 <= v < s.len() ==> 0 <= #[trigger] s[v],
    ensures
        0 <= s[i] <= sum_of(s),
    decreases s.len(),
{
    let front = s.drop_last();
    assert forall|v: int| 0 <= v < front.len() implies 0 <= #[trigger] front[v] by {
        assert(front[v] == s[v]);
    }
    assert(0 <= s[s.len() - 1]);
    assert(0 <= s[i]);
    if front.len() > 0 {
        let at = if i < front.len() { i } else { 0 };
        lemma_sum_bounds(front, at);
        assert(front[at] == s[at]);
        assert(0 <= sum_of(front));
    } else {
        assert(sum_of(front) == 0);
    }
}

/// The entries of `s` in the order `order` of their positions.
pub open spec fn along(s: Seq<int>, order: Seq<usize>) -> Seq<int> {
    Seq::new(order.len(), |j: int| s[order[j] as int])
}

/// The sum of the entries does not depend on the order in which they are
/// added.
proof fn lemma_sum_along(s: Seq<int>, order: Seq<usize>)
    requires
        s.len() <= usize::MAX,
        is_tour(order, s.len() as int),
    ensures
        sum_of(along(s, order)) == sum_of(s),
    decreases s.len(),
{
    let n = s.len() as int;
    if n > 0 {
        lemma_no_repeats_bounds_length(order, n);
        lemma_tour_visits_every_city(order, n, (n - 1) as usize);
        let p = choose|p: int| 0 <= p < n && order[p] == (n - 1) as usize;
        let fewer = order.remove(p);
        assert forall|j: int| 0 <= j < fewer.len() implies (#[trigger] fewer[j]) < n - 1 by {
            let o = if j < p { j } else { j + 1 };
            assert(fewer[j] == order[o]);
            assert(order[o] < n);
            if o < p {
                assert(order[o] != order[p]);
            } else {
                assert(order[p] != order[o]);
            }
        }
        assert forall|a: int, b: int| 0 <= a < b < fewer.len() implies fewer[a] != fewer[b] by {
            let oa = if a < p { a } else { a + 1 };
            let ob = if b < p { b } else { b + 1 };
            assert(fewer[a] == order[oa]);
            assert(fewer[b] == order[ob]);
        }
        lemma_sum_along(s.drop_last(), fewer);
        lemma_sum_remove(along(s, order), p);
        assert(along(s, order).remove(p) =~= along(s.drop_last(), fewer)) by {
            assert forall|j: int| 0 <= j < fewer.len() implies along(s, order).remove(p)[j]
                == along(s.drop_last(), fewer)[j] by {
                let o = if j < p { j } else { j + 1 };
                assert(fewer[j] == order[o]);
                assert(fewer[j] < n - 1);
            }
        }
    } else {
        assert(along(s, order) =~= Seq::<int>::empty());
    }
}

/// The position among the cities before position `k` of `order` from which
/// the shortest edge leads to the city at position `k`.
pub open spec fn link_from(order: Seq<usize>, k: int, graph: Seq<Vec<u64>>) -> int {
    choose|a: int|
        0 <= a < k && cheapest_link(order, k, order[k] as int, graph) == dist(
            graph,
            #[trigger] order[a] as int,
            order[k] as int,
        )
}

/// The cities at the positions from 1 up to, not including, `k` of `order`
/// hang in the tree where Prim's algorithm hangs them.
pub open spec fn follows_prim(par: Seq<usize>, order: Seq<usize>, k: int, graph: Seq<Vec<u64>>) -> bool {
    forall|j: int|
        1 <= j < k ==> par[(#[trigger] order[j]) as int] == order[link_from(order, j, graph)]
}

/// The tree that Prim's algorithm grows for the order `order`.
pub open spec fn prim_tree(order: Seq<usize>, graph: Seq<Vec<u64>>) -> Seq<usize> {
    Seq::new(
        order.len(),
        |v: int|
            {
                let j = position_of(order, v as usize);
                if j == 0 {
                    0usize
                } else {
                    order[link_from(order, j, graph)]
                }
            },
    )
}

/// The shortest edge to the city at position `k` leads from a position
/// before `k`.
proof fn lemma_link_from(order: Seq<usize>, k: int, graph: Seq<Vec<u64>>)
    requires
        1 <= k < order.len(),
    ensures
        0 <= link_from(order, k, graph) < k,
        cheapest_link(order, k, order[k] as int, graph) == dist(
            graph,
            order[link_from(order, k, graph)] as int,
            order[k] as int,
        ),
{
    lemma_cheapest_link(order, k, order[k] as int, graph);
}

/// The way from `x` up the tree to the first city among the first `k` of
/// `order`, that city included.
pub open spec fn climb(par: Seq<usize>, rank: Seq<int>, order: Seq<usize>, k: int, x: usize) -> Seq<
    usize,
>
    decreases rank[x as int],
{
    if order.take(k).contains(x) || x == 0 || !(0 <= rank[par[x as int] as int] < rank[x as int]) {
        seq![x]
    } else {
        seq![x] + climb(par, rank, order, k, par[x as int])
    }
}

/// The way up starts at `x`, goes from each city to its parent, and enters
/// the first `k` cities of `order` with its last city only.
proof fn lemma_climb(par: Seq<usize>, rank: Seq<int>, order: Seq<usize>, k: int, x: usize)
    requires
        is_ranked(par, rank),
        forall|v: int| 0 <= v < par.len() ==> (#[trigger] par[v]) < par.len(),
        is_tour(order, par.len() as int),
        order[0] == 0,
        1 <= k <= order.len(),
        x < par.len(),
    ensures
        climb(par, rank, order, k, x).len() >= 1,
        climb(par, rank, order, k, x)[0] == x,
        order.take(k).contains(climb(par, rank, order, k, x).last()),
        forall|i: int|
            0 <= i < climb(par, rank, order, k, x).len() ==> (#[trigger] climb(
                par,
                rank,
                order,
                k,
                x,
            )[i]) < par.len() && rank[climb(par, rank, order, k, x)[i] as int] <= rank[x as int] - i,
        forall|i: int|
            0 <= i < climb(par, rank, order, k, x).len() - 1 ==> {
                &&& !order.take(k).contains(#[trigger] climb(par, rank, order, k, x)[i])
                &&& climb(par, rank, order, k, x)[i] != 0
                &&& par[climb(par, rank, order, k, x)[i] as int] == climb(par, rank, order, k, x)[i
                    + 1]
            },
    decreases rank[x as int],
{
    let way = climb(par, rank, order, k, x);
    assert(order.take(k)[0] == 0);
    if order.take(k).contains(x) {
    } else {
        assert(x != 0);
        assert(0 <= rank[par[x as int] as int] < rank[x as int]);
        let up = par[x as int];
        lemma_climb(par, rank, order, k, up);
        let rest = climb(par, rank, order, k, up);
        assert(way == seq![x] + rest);
        assert forall|i: int| 0 <= i < way.len() implies (#[trigger] way[i]) < par.len()
            && rank[way[i] as int] <= rank[x as int] - i by {
            if i > 0 {
                assert(way[i] == rest[i - 1]);
            }
        }
        assert forall|i: int| 0 <= i < way.len() - 1 implies {
            &&& !order.take(k).contains(#[trigger] way[i])
            &&& way[i] != 0
            &&& par[way[i] as int] == way[i + 1]
        } by {
            if i > 0 {
                assert(way[i] == rest[i - 1]);
                assert(way[i + 1] == rest[i]);
            } else {
                assert(way[1] == rest[0]);
            }
        }
        assert(way.last() == rest.last());
    }
}

/// The place in `outside` of the first city of `outside` on the way from
/// `w` up the tree, or -1 if the way meets none.
pub open spec fn first_hit(par: Seq<usize>, rank: Seq<int>, outside: Seq<usize>, w: usize) -> int
    decreases rank[w as int],
{
    if outside.contains(w) {
        position_of(outside, w)
    } else if w == 0 || !(0 <= rank[par[w as int] as int] < rank[w as int]) {
        -1
    } else {
        first_hit(par, rank, outside, par[w as int])
    }
}

/// The first city of `outside` on the way up from `w` stands in
/// `outside` and ranks no higher than `w`.
proof fn lemma_first_hit(par: Seq<usize>, rank: Seq<int>, outside: Seq<usize>, w: usize)
    requires
        is_ranked(par, rank),
        forall|v: int| 0 <= v < par.len() ==> (#[trigger] par[v]) < par.len(),
        w < par.len(),
    ensures
        -1 <= first_hit(par, rank, outside, w) < outside.len(),
        first_hit(par, rank, outside, w) >= 0 ==> rank[outside[first_hit(
            par,
            rank,
            outside,
            w,
        )] as int] <= rank[w as int],
    decreases rank[w as int],
{
    if outside.contains(w) {
    } else if w == 0 {
    } else {
        assert(rank[par[w as int] as int] < rank[w as int]);
        lemma_first_hit(par, rank, outside, par[w as int]);
    }
}

/// The way up from a city among the first `k` of `order` stays among
/// them, in a tree that follows Prim's algorithm that far.
proof fn lemma_no_hit(
    par: Seq<usize>,
    rank: Seq<int>,
    order: Seq<usize>,
    k: int,
    graph: Seq<Vec<u64>>,
    outside: Seq<usize>,
    w: usize,
)
    requires
        is_ranked(par, rank),
        forall|v: int| 0 <= v < par.len() ==> (#[trigger] par[v]) < par.len(),
        is_tour(order, par.len() as int),
        order[0] == 0,
        1 <= k <= order.len(),
        follows_prim(par, order, k, graph),
        forall|i: int| 0 <= i < outside.len() ==> !order.take(k).contains(#[trigger] outside[i]),
        order.take(k).contains(w),
    ensures
        first_hit(par, rank, outside, w) == -1,
    decreases rank[w as int],
{
    let j = choose|j: int| 0 <= j < k && order.take(k)[j] == w;
    assert(order[j] == w);
    assert(w < par.len());
    if outside.contains(w) {
        let i = choose|i: int| 0 <= i < outside.len() && outside[i] == w;
        assert(!order.take(k).contains(outside[i]));
    }
    if w != 0 {
        assert(j >= 1);
        lemma_link_from(order, j, graph);
        let a = link_from(order, j, graph);
        assert(par[order[j] as int] == order[a]);
        assert(order.take(k)[a] == order[a]);
        assert(rank[par[w as int] as int] < rank[w as int]);
        lemma_no_hit(par, rank, order, k, graph, outside, par[w as int]);
    }
}

/// The parents after the cities of `outside`, a way up the tree, have been
/// turned around and its first city hung on `hook`.
pub open spec fn rehung(par: Seq<usize>, outside: Seq<usize>, hook: usize) -> Seq<usize> {
    Seq::new(
        par.len(),
        |w: int|
            if outside.contains(w as usize) {
                let i = position_of(outside, w as usize);
                if i == 0 {
                    hook
                } else {
                    outside[i - 1]
                }
            } else {
                par[w]
            },
    )
}

/// The ranks under which the tree with the way turned around is a tree.
pub open spec fn rehung_rank(
    par: Seq<usize>,
    rank: Seq<int>,
    outside: Seq<usize>,
    w: int,
) -> int {
    let hit = first_hit(par, rank, outside, w as usize);
    let step = sum_of(rank) + 1;
    if hit < 0 {
        rank[w]
    } else {
        step * (hit + 1) + rank[w] - rank[outside[hit] as int]
    }
}

/// The place of a city in a sequence without repeats is its only place.
proof fn lemma_position(s: Seq<usize>, i: int)
    requires
        no_repeats(s),
        0 <= i < s.len(),
    ensures
        position_of(s, s[i]) == i,
        s.contains(s[i]),
{
    let p = position_of(s, s[i]);
    assert(0 <= p < s.len() && s[p] == s[i]);
    if p < i {
        assert(s[p] != s[i]);
    }
    if i < p {
        assert(s[i] != s[p]);
    }
}

/// Turning a way up the tree around and hanging its first city on a city
/// among the first `k` of `order` leaves a tree.
proof fn lemma_rehung_is_tree(
    par: Seq<usize>,
    rank: Seq<int>,
    order: Seq<usize>,
    k: int,
    graph: Seq<Vec<u64>>,
    outside: Seq<usize>,
    hook: usize,
)
    requires
        par.len() <= usize::MAX,
        is_ranked(par, rank),
        forall|v: int| 0 <= v < par.len() ==> (#[trigger] par[v]) < par.len(),
        is_tour(order, par.len() as int),
        order[0] == 0,
        1 <= k <= order.len(),
        follows_prim(par, order, k, graph),
        outside.len() >= 1,
        no_repeats(outside),
        forall|i: int|
            0 <= i < outside.len() ==> (#[trigger] outside[i]) < par.len() && outside[i] != 0
                && !order.take(k).contains(outside[i]),
        forall|i: int| 0 <= i < outside.len() - 1 ==> par[(#[trigger] outside[i]) as int] == outside[i + 1],
        order.take(k).contains(hook),
    ensures
        is_spanning_tree(rehung(par, outside, hook), par.len() as int),
{
    let n = par.len() as int;
    let turned = rehung(par, outside, hook);
    let step = sum_of(rank) + 1;
    let ranks = Seq::new(par.len(), |w: int| rehung_rank(par, rank, outside, w));
    let j = choose|j: int| 0 <= j < k && order.take(k)[j] == hook;
    assert(order[j] == hook);
    assert forall|w: int| 0 <= w < n implies (#[trigger] turned[w]) < n by {
        if outside.contains(w as usize) {
            let i = position_of(outside, w as usize);
            if i > 0 {
                assert(outside[i - 1] < n);
            }
        }
    }
    assert forall|w: int| 0 <= w < n implies 0 <= #[trigger] ranks[w] by {
        lemma_first_hit(par, rank, outside, w as usize);
        lemma_sum_bounds(rank, w);
        let hit = first_hit(par, rank, outside, w as usize);
        if hit >= 0 {
            assert(step * (hit + 1) >= 0) by (nonlinear_arith)
                requires
                    step >= 0,
                    hit >= 0,
            ;
        }
    }
    assert forall|w: int| 1 <= w < n implies ranks[(#[trigger] turned[w]) as int] < ranks[w] by {
        lemma_first_hit(par, rank, outside, w as usize);
        lemma_sum_bounds(rank, w);
        let hit = first_hit(par, rank, outside, w as usize);
        if outside.contains(w as usize) {
            let i = position_of(outside, w as usize);
            lemma_position(outside, i);
            assert(hit == i);
            if i == 0 {
                lemma_no_hit(par, rank, order, k, graph, outside, hook);
                lemma_sum_bounds(rank, hook as int);
                assert(step * 1 == step) by (nonlinear_arith);
            } else {
                let below = outside[i - 1];
                lemma_position(outside, i - 1);
                assert(first_hit(par, rank, outside, below) == i - 1);
                assert(step * (i + 1) == step * i + step) by (nonlinear_arith);
                assert(step * ((i - 1) + 1) == step * i) by (nonlinear_arith);
            }
        } else {
            let up = par[w];
            assert(rank[up as int] < rank[w]);
            assert(hit == first_hit(par, rank, outside, up));
            lemma_first_hit(par, rank, outside, up);
        }
    }
    assert(is_ranked(turned, ranks));
}

/// The weights of the edges after the first `count` cities of the way
/// have been given their new parents.
spec fn partly_rehung(
    par: Seq<usize>,
    outside: Seq<usize>,
    hook: usize,
    count: int,
    graph: Seq<Vec<u64>>,
) -> Seq<int> {
    Seq::new(
        par.len(),
        |w: int|
            if outside.take(count).contains(w as usize) {
                edge_weights(rehung(par, outside, hook), graph)[w]
            } else {
                edge_weights(par, graph)[w]
            },
    )
}

/// Turning the first `count` cities of the way around trades the edge on
/// which the last of them hung for the edge to the hook.
proof fn lemma_partly_rehung(
    par: Seq<usize>,
    outside: Seq<usize>,
    hook: usize,
    count: int,
    graph: Seq<Vec<u64>>,
)
    requires
        par.len() <= usize::MAX,
        is_symmetric(graph),
        par.len() == graph.len(),
        forall|v: int| 0 <= v < par.len() ==> (#[trigger] par[v]) < par.len(),
        1 <= count <= outside.len(),
        no_repeats(outside),
        forall|i: int| 0 <= i < outside.len() ==> (#[trigger] outside[i]) < par.len() && outside[i] != 0,
        forall|i: int| 0 <= i < outside.len() - 1 ==> par[(#[trigger] outside[i]) as int] == outside[i + 1],
        hook < par.len(),
    ensures
        sum_of(partly_rehung(par, outside, hook, count, graph)) == tree_weight(par, graph) + dist(
            graph,
            hook as int,
            outside[0] as int,
        ) - dist(graph, par[outside[count - 1] as int] as int, outside[count - 1] as int),
    decreases count,
{
    let turned = rehung(par, outside, hook);
    let before = partly_rehung(par, outside, hook, count - 1, graph);
    let after = partly_rehung(par, outside, hook, count, graph);
    let city = outside[count - 1];
    lemma_position(outside, count - 1);
    assert(after =~= before.update(city as int, edge_weights(turned, graph)[city as int])) by {
        assert forall|w: int| 0 <= w < par.len() implies after[w] == before.update(
            city as int,
            edge_weights(turned, graph)[city as int],
        )[w] by {
            let earlier = outside.take(count - 1);
            let now = outside.take(count);
            if w == city {
                assert(now[count - 1] == city);
            } else if earlier.contains(w as usize) {
                let i = choose|i: int| 0 <= i < earlier.len() && earlier[i] == w as usize;
                assert(now[i] == w as usize);
            } else if now.contains(w as usize) {
                let i = choose|i: int| 0 <= i < now.len() && now[i] == w as usize;
                assert(earlier[i] == w as usize);
            }
        }
    }
    lemma_sum_update(before, city as int, edge_weights(turned, graph)[city as int]);
    assert(!outside.take(count - 1).contains(city)) by {
        let earlier = outside.take(count - 1);
        if earlier.contains(city) {
            let i = choose|i: int| 0 <= i < earlier.len() && earlier[i] == city;
            assert(outside[i] != outside[count - 1]);
        }
    }
    assert(before[city as int] == dist(graph, par[city as int] as int, city as int));
    if count == 1 {
        assert(before =~= edge_weights(par, graph)) by {
            assert(outside.take(0).len() == 0);
        }
        assert(turned[city as int] == hook);
    } else {
        lemma_partly_rehung(par, outside, hook, count - 1, graph);
        let below = outside[count - 2];
        assert(turned[city as int] == below);
        assert(par[below as int] == city);
        assert(dist(graph, below as int, city as int) == dist(graph, city as int, below as int));
    }
}

/// The cities on the way up from the city at position `k` of `order`,
/// short of the first `k` cities of `order`.
pub open spec fn way_outside(par: Seq<usize>, rank: Seq<int>, order: Seq<usize>, k: int) -> Seq<usize> {
    climb(par, rank, order, k, order[k]).drop_last()
}

/// The way up from the city at position `k` starts with that city, goes
/// from each city to its parent without meeting a city twice, and stays
/// outside the first `k` cities until its last step.
proof fn lemma_way_outside(par: Seq<usize>, rank: Seq<int>, order: Seq<usize>, k: int)
    requires
        is_ranked(par, rank),
        forall|v: int| 0 <= v < par.len() ==> (#[trigger] par[v]) < par.len(),
        is_tour(order, par.len() as int),
        order[0] == 0,
        1 <= k < order.len(),
    ensures
        way_outside(par, rank, order, k).len() >= 1,
        way_outside(par, rank, order, k)[0] == order[k],
        no_repeats(way_outside(par, rank, order, k)),
        forall|i: int|
            0 <= i < way_outside(par, rank, order, k).len() ==> (#[trigger] way_outside(
                par,
                rank,
                order,
                k,
            )[i]) < par.len() && way_outside(par, rank, order, k)[i] != 0 && !order.take(
                k,
            ).contains(way_outside(par, rank, order, k)[i]),
        forall|i: int|
            0 <= i < way_outside(par, rank, order, k).len() - 1 ==> par[(#[trigger] way_outside(
                par,
                rank,
                order,
                k,
            )[i]) as int] == way_outside(par, rank, order, k)[i + 1],
        order.take(k).contains(par[way_outside(par, rank, order, k).last() as int]),
{
    let city = order[k];
    lemma_climb(par, rank, order, k, city);
    let way = climb(par, rank, order, k, city);
    assert(!order.take(k).contains(city)) by {
        let first = order.take(k);
        if first.contains(city) {
            let j = choose|j: int| 0 <= j < first.len() && first[j] == city;
            assert(order[j] != order[k]);
        }
    }
    assert(way.len() >= 2);
    let outside = way.drop_last();
    let m = outside.len() as int;
    assert forall|i: int| 0 <= i < m implies (#[trigger] outside[i]) < par.len() && outside[i] != 0
        && !order.take(k).contains(outside[i]) by {
        assert(outside[i] == way[i]);
    }
    assert forall|i: int| 0 <= i < m - 1 implies par[(#[trigger] outside[i]) as int] == outside[i
        + 1] by {
        assert(outside[i] == way[i]);
        assert(outside[i + 1] == way[i + 1]);
    }
    assert forall|i: int, j: int| 0 <= i < j < m implies outside[i] != outside[j] by {
        assert(outside[i] == way[i]);
        assert(outside[j] == way[j]);
        lemma_climb_ranks(par, rank, order, k, city, i, j);
    }
    assert(outside[m - 1] == way[m - 1]);
    assert(par[way[m - 1] as int] == way[m]);
}

/// The tree with the way turned around follows Prim's algorithm one city
/// further.
proof fn lemma_rehung_follows(
    par: Seq<usize>,
    order: Seq<usize>,
    k: int,
    graph: Seq<Vec<u64>>,
    outside: Seq<usize>,
)
    requires
        is_tour(order, par.len() as int),
        1 <= k < order.len(),
        follows_prim(par, order, k, graph),
        outside.len() >= 1,
        outside[0] == order[k],
        no_repeats(outside),
        forall|i: int| 0 <= i < outside.len() ==> !order.take(k).contains(#[trigger] outside[i]),
    ensures
        follows_prim(
            rehung(par, outside, order[link_from(order, k, graph)]),
            order,
            k + 1,
            graph,
        ),
{
    let next = rehung(par, outside, order[link_from(order, k, graph)]);
    assert forall|j: int| 1 <= j < k + 1 implies next[(#[trigger] order[j]) as int] == order[link_from(
        order,
        j,
        graph,
    )] by {
        assert(order[j] < par.len());
        if j < k {
            assert(order.take(k)[j] == order[j]);
            if outside.contains(order[j]) {
                let i = choose|i: int| 0 <= i < outside.len() && outside[i] == order[j];
                assert(!order.take(k).contains(outside[i]));
            }
        } else {
            lemma_position(outside, 0);
        }
    }
}

/// The tree with the way turned around is no heavier: the edge to the
/// hook is as short as any edge that leaves the first `k` cities, and the
/// edge on which the way hung is one of those.
proof fn lemma_rehung_weight(
    par: Seq<usize>,
    order: Seq<usize>,
    k: int,
    graph: Seq<Vec<u64>>,
    outside: Seq<usize>,
)
    requires
        graph.len() <= usize::MAX,
        is_symmetric(graph),
        is_prim_order(order, graph),
        par.len() == graph.len(),
        forall|v: int| 0 <= v < par.len() ==> (#[trigger] par[v]) < par.len(),
        1 <= k < graph.len(),
        outside.len() >= 1,
        outside[0] == order[k],
        no_repeats(outside),
        forall|i: int|
            0 <= i < outside.len() ==> (#[trigger] outside[i]) < par.len() && outside[i] != 0
                && !order.take(k).contains(outside[i]),
        forall|i: int| 0 <= i < outside.len() - 1 ==> par[(#[trigger] outside[i]) as int] == outside[i + 1],
        order.take(k).contains(par[outside.last() as int]),
    ensures
        tree_weight(rehung(par, outside, order[link_from(order, k, graph)]), graph) <= tree_weight(
            par,
            graph,
        ),
{
    let m = outside.len() as int;
    lemma_link_from(order, k, graph);
    let hook = order[link_from(order, k, graph)];
    let next = rehung(par, outside, hook);
    lemma_partly_rehung(par, outside, hook, m, graph);
    assert(partly_rehung(par, outside, hook, m, graph) =~= edge_weights(next, graph)) by {
        assert(outside.take(m) =~= outside);
    }
    let last = outside[m - 1];
    let top = par[last as int];
    let first = order.take(k);
    let j = choose|j: int| 0 <= j < first.len() && first[j] == top;
    assert(order[j] == top);
    lemma_cheapest_link(order, k, last as int, graph);
    assert(cheapest_link(order, k, last as int, graph) <= dist(graph, order[j] as int, last as int));
    assert(!order.take(k).contains(last));
    assert(cheapest_link(order, k, order[k] as int, graph) <= cheapest_link(
        order,
        k,
        last as int,
        graph,
    ));
}

/// Hangs the city at position `k` of `order` where Prim's algorithm hangs
/// it, in a tree that follows the algorithm up to there: the tree stays a
/// tree and gets no heavier.
proof fn lemma_exchange(par: Seq<usize>, order: Seq<usize>, k: int, graph: Seq<Vec<u64>>) -> (next:
    Seq<usize>)
    requires
        graph.len() <= usize::MAX,
        is_square(graph),
        is_symmetric(graph),
        is_prim_order(order, graph),
        is_spanning_tree(par, graph.len() as int),
        1 <= k < graph.len(),
        follows_prim(par, order, k, graph),
    ensures
        is_spanning_tree(next, graph.len() as int),
        follows_prim(next, order, k + 1, graph),
        tree_weight(next, graph) <= tree_weight(par, graph),
{
    let rank = choose|rank: Seq<int>| is_ranked(par, rank);
    lemma_link_from(order, k, graph);
    let a = link_from(order, k, graph);
    let hook = order[a];
    assert(order.take(k)[a] == hook);
    lemma_way_outside(par, rank, order, k);
    let outside = way_outside(par, rank, order, k);
    lemma_rehung_is_tree(par, rank, order, k, graph, outside, hook);
    lemma_rehung_follows(par, order, k, graph, outside);
    lemma_rehung_weight(par, order, k, graph, outside);
    rehung(par, outside, hook)
}

/// The ranks fall along the way up.
proof fn lemma_climb_ranks(
    par: Seq<usize>,
    rank: Seq<int>,
    order: Seq<usize>,
    k: int,
    x: usize,
    i: int,
    j: int,
)
    requires
        is_ranked(par, rank),
        forall|v: int| 0 <= v < par.len() ==> (#[trigger] par[v]) < par.len(),
        is_tour(order, par.len() as int),
        order[0] == 0,
        1 <= k <= order.len(),
        x < par.len(),
        0 <= i < j < climb(par, rank, order, k, x).len(),
    ensures
        rank[climb(par, rank, order, k, x)[j] as int] < rank[climb(par, rank, order, k, x)[i] as int],
    decreases j - i,
{
    lemma_climb(par, rank, order, k, x);
    let way = climb(par, rank, order, k, x);
    assert(way[j - 1] != 0 && par[way[j - 1] as int] == way[j]);
    assert(way[j - 1] >= 1);
    assert(rank[par[way[j - 1] as int] as int] < rank[way[j - 1] as int]);
    if i < j - 1 {
        lemma_climb_ranks(par, rank, order, k, x, i, j - 1);
    }
}

/// A tree that follows Prim's algorithm for all cities weighs what the
/// algorithm adds up.
proof fn lemma_followed_weight(par: Seq<usize>, order: Seq<usize>, graph: Seq<Vec<u64>>)
    requires
        graph.len() <= usize::MAX,
        is_prim_order(order, graph),
        par.len() == graph.len(),
        follows_prim(par, order, graph.len() as int, graph),
    ensures
        tree_weight(par, graph) == linked_weight(order, graph.len() as int, graph),
{
    let n = graph.len() as int;
    let weights = edge_weights(par, graph);
    lemma_sum_along(weights, order);
    let listed = along(weights, order);
    if n > 0 {
        lemma_weights_along(par, order, graph, n);
        assert(listed.take(n) =~= listed);
    } else {
        assert(listed =~= Seq::<int>::empty());
    }
}

/// The weights of the edges of the first `count` cities in the order of
/// Prim's algorithm add up as the algorithm adds them.
proof fn lemma_weights_along(par: Seq<usize>, order: Seq<usize>, graph: Seq<Vec<u64>>, count: int)
    requires
        graph.len() <= usize::MAX,
        is_prim_order(order, graph),
        par.len() == graph.len(),
        follows_prim(par, order, graph.len() as int, graph),
        1 <= count <= graph.len(),
    ensures
        sum_of(along(edge_weights(par, graph), order).take(count)) == linked_weight(
            order,
            count,
            graph,
        ),
    decreases count,
{
    let listed = along(edge_weights(par, graph), order);
    let part = listed.take(count);
    let weights = edge_weights(par, graph);
    if count == 1 {
        assert(part.drop_last() =~= Seq::<int>::empty());
        assert(sum_of(part.drop_last()) == 0);
        assert(part.last() == listed[0]);
        assert(order[0] == 0);
        assert(listed[0] == weights[order[0] as int]);
        assert(linked_weight(order, 1, graph) == 0);
    } else {
        lemma_weights_along(par, order, graph, count - 1);
        assert(part.drop_last() =~= listed.take(count - 1));
        let city = order[count - 1];
        assert(order[0] != order[count - 1]);
        assert(city < graph.len());
        lemma_link_from(order, count - 1, graph);
        assert(par[order[count - 1] as int] == order[link_from(order, count - 1, graph)]);
        assert(part.last() == listed[count - 1]);
        assert(listed[count - 1] == weights[city as int]);
        assert(weights[city as int] == dist(graph, par[city as int] as int, city as int));
    }
}

/// From a tree that follows Prim's algorithm for the first `k` cities on:
/// the tree is no lighter than what the algorithm adds up.
proof fn lemma_no_lighter(par: Seq<usize>, order: Seq<usize>, k: int, graph: Seq<Vec<u64>>)
    requires
        graph.len() <= usize::MAX,
        is_square(graph),
        is_symmetric(graph),
        is_prim_order(order, graph),
        is_spanning_tree(par, graph.len() as int),
        1 <= k <= graph.len(),
        follows_prim(par, order, k, graph),
    ensures
        linked_weight(order, graph.len() as int, graph) <= tree_weight(par, graph),
    decreases graph.len() - k,
{
    if k == graph.len() {
        lemma_followed_weight(par, order, graph);
    } else {
        let next = lemma_exchange(par, order, k, graph);
        lemma_no_lighter(next, order, k + 1, graph);
    }
}

/// The tree of Prim's algorithm is a spanning tree, and it follows the algorithm.
proof fn lemma_prim_tree(order: Seq<usize>, graph: Seq<Vec<u64>>)
    requires
        graph.len() <= usize::MAX,
        is_prim_order(order, graph),
        graph.len() >= 1,
    ensures
        is_spanning_tree(prim_tree(order, graph), graph.len() as int),
        follows_prim(prim_tree(order, graph), order, graph.len() as int, graph),
{
    let n = graph.len() as int;
    let tree = prim_tree(order, graph);
    let ranks = Seq::new(n as nat, |v: int| position_of(order, v as usize));
    assert forall|c: usize| c < n implies 0 <= #[trigger] position_of(order, c) < n && order[position_of(
        order,
        c,
    )] == c by {
        lemma_tour_visits_every_city(order, n, c);
    }
    lemma_position(order, 0);
    assert forall|v: int| 0 <= v < n implies (#[trigger] tree[v]) < n by {
        let j = position_of(order, v as usize);
        assert(0 <= position_of(order, v as usize) < n);
        if j != 0 {
            lemma_link_from(order, j, graph);
        }
    }
    assert forall|v: int| 1 <= v < n implies ranks[(#[trigger] tree[v]) as int] < ranks[v] by {
        let j = position_of(order, v as usize);
        assert(0 <= position_of(order, v as usize) < n && order[position_of(order, v as usize)]
            == v as usize);
        assert(j != 0);
        lemma_link_from(order, j, graph);
        lemma_position(order, link_from(order, j, graph));
    }
    assert(is_ranked(tree, ranks));
    assert forall|j: int| 1 <= j < n implies tree[(#[trigger] order[j]) as int] == order[link_from(
        order,
        j,
        graph,
    )] by {
        lemma_position(order, j);
    }
}

/// What Prim's algorithm adds up is the weight of a lightest spanning
/// tree, under a symmetric matrix.
pub proof fn lemma_prim_is_minimal(order: Seq<usize>, graph: Seq<Vec<u64>>)
    requires
        graph.len() <= usize::MAX,
        is_square(graph),
        is_symmetric(graph),
        is_prim_order(order, graph),
        graph.len() >= 1,
    ensures
        is_minimum_spanning_weight(linked_weight(order, graph.len() as int, graph), graph),
{
    let n = graph.len() as int;
    lemma_prim_tree(order, graph);
    lemma_followed_weight(prim_tree(order, graph), order, graph);
    assert(is_spanning_tree(prim_tree(order, graph), n) && tree_weight(
        prim_tree(order, graph),
        graph,
    ) == linked_weight(order, n, graph));
    assert forall|par: Seq<usize>| #[trigger] is_spanning_tree(par, n) implies linked_weight(
        order,
        n,
        graph,
    ) <= tree_weight(par, graph) by {
        lemma_no_lighter(par, order, 1, graph);
    }
}

/// The tree in which each city of the tour hangs on the city before it.
pub open spec fn path_tree(tour: Seq<usize>) -> Seq<usize> {
    Seq::new(
        tour.len(),
        |v: int|
            {
                let k = position_of(tour, v as usize);
                if k <= 0 {
                    0usize
                } else {
                    tour[k - 1]
                }
            },
    )
}

/// The edges of the path tree of the first `count` cities of a tour are
/// the edges of the path through them.
proof fn lemma_path_tree_weights(tour: Seq<usize>, graph: Seq<Vec<u64>>, count: int)
    requires
        tour.len() <= usize::MAX,
        is_tour(tour, tour.len() as int),
        tour[0] == 0,
        1 <= count <= tour.len(),
    ensures
        sum_of(along(edge_weights(path_tree(tour), graph), tour).take(count)) == path_length(
            tour.take(count),
            graph,
        ),
    decreases count,
{
    let weights = edge_weights(path_tree(tour), graph);
    let listed = along(weights, tour);
    let part = listed.take(count);
    if count == 1 {
        assert(part.drop_last() =~= Seq::<int>::empty());
        assert(sum_of(part.drop_last()) == 0);
        assert(part.last() == weights[tour[0] as int]);
        assert(tour.take(1).len() == 1);
    } else {
        lemma_path_tree_weights(tour, graph, count - 1);
        assert(part.drop_last() =~= listed.take(count - 1));
        let city = tour[count - 1];
        assert(tour[0] != tour[count - 1]);
        assert(city < tour.len());
        lemma_position(tour, count - 1);
        assert(path_tree(tour)[city as int] == tour[count - 2]);
        assert(part.last() == weights[city as int]);
        let path = tour.take(count);
        assert(path.drop_last() =~= tour.take(count - 1));
        assert(path[count - 2] == tour[count - 2]);
        assert(path[count - 1] == city);
    }
}

/// The weight of a lightest spanning tree is a lower bound on the length
/// of every tour: a tour without its closing edge is a spanning tree.
pub proof fn lemma_spanning_weight_bounds_tours(
    weight: int,
    tour: Seq<usize>,
    graph: Seq<Vec<u64>>,
)
    requires
        graph.len() <= usize::MAX,
        is_minimum_spanning_weight(weight, graph),
        is_tour(tour, graph.len() as int),
    ensures
        weight <= tour_length(tour, graph),
{
    let n = graph.len() as int;
    if n == 0 {
        let none = Seq::<usize>::empty();
        assert(tour =~= none);
        assert(is_ranked(none, Seq::<int>::empty()));
        assert(is_spanning_tree(none, 0));
        assert(edge_weights(none, graph) =~= Seq::<int>::empty());
    } else {
        lemma_from_city_zero(tour, n, graph);
        let from_zero = from_city_zero(tour);
        let tree = path_tree(from_zero);
        let ranks = Seq::new(n as nat, |v: int| position_of(from_zero, v as usize));
        assert forall|c: usize| c < n implies 0 <= #[trigger] position_of(from_zero, c) < n
            && from_zero[position_of(from_zero, c)] == c by {
            lemma_tour_visits_every_city(from_zero, n, c);
        }
        assert forall|v: int| 0 <= v < n implies (#[trigger] tree[v]) < n by {
            let k = position_of(from_zero, v as usize);
            assert(0 <= position_of(from_zero, v as usize) < n);
            if k > 0 {
                assert(from_zero[k - 1] < n);
            }
        }
        lemma_position(from_zero, 0);
        assert forall|v: int| 1 <= v < n implies ranks[(#[trigger] tree[v]) as int] < ranks[v] by {
            let k = position_of(from_zero, v as usize);
            assert(0 <= position_of(from_zero, v as usize) < n && from_zero[position_of(
                from_zero,
                v as usize,
            )] == v as usize);
            assert(k != 0);
            lemma_position(from_zero, k - 1);
        }
        assert(is_ranked(tree, ranks));
        assert(is_spanning_tree(tree, n));
        lemma_sum_along(edge_weights(tree, graph), from_zero);
        lemma_path_tree_weights(from_zero, graph, n);
        assert(along(edge_weights(tree, graph), from_zero).take(n) =~= along(
            edge_weights(tree, graph),
            from_zero,
        ));
        assert(from_zero.take(n) =~= from_zero);
    }
}

} // verus!
