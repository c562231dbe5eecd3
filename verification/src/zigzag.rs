//! The zigzag pass: one sweep over the tour that exchanges two
//! neighbouring visits wherever that shortens the two edges around them.

use vstd::prelude::*;
use crate::tour::{
    all_below, dist, is_tour, lemma_next_position, lemma_path_length_concat,
    lemma_path_length_push, no_repeats, path_length, tour_length,
};
use crate::utils::{distance, euclidean, is_matrix_of, lemma_euclidean_symmetric, Point};

verus! {

/// The rounded-down distance between two points.
pub open spec fn apart(p: Point, q: Point) -> int {
    euclidean(p.x, p.y, q.x, q.y)
}

/// Visiting position `i + 1` before position `i` shortens the way from
/// position `i - 1` to position `i + 2`, all positions taken on the cycle.
pub open spec fn wants_zigzag(pts: Seq<Point>, i: int) -> bool {
    let n = pts.len() as int;
    let back = pts[(i + n - 1) % n];
    let here = pts[i % n];
    let next = pts[(i + 1) % n];
    let beyond = pts[(i + 2) % n];
    apart(back, next) + apart(here, beyond) < apart(back, here) + apart(next, beyond)
}

/// Whether to visit position `i + 1` of `pts` before position `i`.
pub fn should_zigzag(i: usize, pts: &[Point]) -> (swap: bool)
    requires
        pts@.len() > 0,
    ensures
        swap == wants_zigzag(pts@, i as int),
{
    let n = pts.len();
    let here = i % n;
    let before = if here == 0 { n - 1 } else { here - 1 };
    let after = if here + 1 == n { 0 } else { here + 1 };
    let beyond = if after + 1 == n { 0 } else { after + 1 };
    proof {
        lemma_next_position(0, i + n - 1, n as int);
        vstd::arithmetic::div_mod::lemma_mod_add_multiples_vanish(i as int, n as int);
        lemma_next_position(0, i as int, n as int);
        lemma_next_position(0, i + 1, n as int);
    }
    let segment1 = distance(&pts[before], &pts[here]);
    let segment3 = distance(&pts[after], &pts[beyond]);
    let zigzag_segment1 = distance(&pts[before], &pts[after]);
    let zigzag_segment3 = distance(&pts[here], &pts[beyond]);
    (zigzag_segment1 as u128 + zigzag_segment3 as u128) < (segment1 as u128 + segment3 as u128)
}

/// The visits that the pass adds to `done` from position `i` on: where a
/// zigzag pays and three positions are left, positions `i + 1`, `i`,
/// `i + 2` and on from `i + 3`; else position `i` and on from `i + 1`.
pub open spec fn zigzag_run(pts: Seq<Point>, i: int, done: Seq<usize>) -> Seq<usize>
    decreases pts.len() - i,
{
    if i >= pts.len() || i < 1 {
        done
    } else if pts.len() - i > 2 && wants_zigzag(pts, i) {
        zigzag_run(pts, i + 3, done.push(pts[i + 1].id).push(pts[i].id).push(pts[i + 2].id))
    } else {
        zigzag_run(pts, i + 1, done.push(pts[i].id))
    }
}

/// The order of visits after the pass over the visits `pts`.
pub open spec fn zigzag_order(pts: Seq<Point>) -> Seq<usize> {
    if pts.len() == 0 {
        Seq::empty()
    } else {
        zigzag_run(pts, 1, seq![pts[0].id])
    }
}

/// The points of the tour in the order of their visits, each under the
/// number by which the tour names it.
pub open spec fn visits(order: Seq<usize>, points: Seq<Point>) -> Seq<Point> {
    Seq::new(
        order.len(),
        |k: int|
            Point {
                x: points[order[k] as int].x,
                y: points[order[k] as int].y,
                angle: points[order[k] as int].angle,
                id: order[k],
            },
    )
}

/// Where no remainder is taken: positions within the tour.
proof fn lemma_wants_zigzag_inside(pts: Seq<Point>, i: int)
    requires
        1 <= i,
        i + 2 < pts.len(),
    ensures
        wants_zigzag(pts, i) == (apart(pts[i - 1], pts[i + 1]) + apart(pts[i], pts[i + 2]) < apart(
            pts[i - 1],
            pts[i],
        ) + apart(pts[i + 1], pts[i + 2])),
{
    let n = pts.len() as int;
    vstd::arithmetic::div_mod::lemma_mod_add_multiples_vanish(i - 1, n);
    vstd::arithmetic::div_mod::lemma_small_mod((i - 1) as nat, n as nat);
    vstd::arithmetic::div_mod::lemma_small_mod(i as nat, n as nat);
    vstd::arithmetic::div_mod::lemma_small_mod((i + 1) as nat, n as nat);
    vstd::arithmetic::div_mod::lemma_small_mod((i + 2) as nat, n as nat);
}

/// The pass ends where the tour ends, visits as many cities, and the way
/// it adds is no longer than the way the tour goes.
proof fn lemma_zigzag_run(
    order: Seq<usize>,
    points: Seq<Point>,
    graph: Seq<Vec<u64>>,
    i: int,
    done: Seq<usize>,
)
    requires
        is_matrix_of(graph, points),
        all_below(order, points.len() as int),
        1 <= i <= order.len(),
        done.len() == i,
        done.last() == order[i - 1],
    ensures
        zigzag_run(visits(order, points), i, done).len() == order.len(),
        zigzag_run(visits(order, points), i, done)[0] == done[0],
        zigzag_run(visits(order, points), i, done).last() == order.last(),
        path_length(zigzag_run(visits(order, points), i, done), graph) <= path_length(done, graph)
            + path_length(order.subrange(i - 1, order.len() as int), graph),
    decreases order.len() - i,
{
    let pts = visits(order, points);
    let n = order.len() as int;
    let rest = order.subrange(i - 1, n);
    if i >= n {
        assert(rest.len() == 1);
    } else {
        let o0 = order[i - 1];
        let o1 = order[i];
        assert(rest =~= seq![o0] + order.subrange(i, n));
        assert(path_length(seq![o0], graph) == 0);
        lemma_path_length_concat(seq![o0], order.subrange(i, n), graph);
        assert(order.subrange(i, n)[0] == o1);
        if n - i > 2 && wants_zigzag(pts, i) {
            let o2 = order[i + 1];
            let o3 = order[i + 2];
            lemma_wants_zigzag_inside(pts, i);
            assert(order.subrange(i, n) =~= seq![o1] + order.subrange(i + 1, n));
            assert(path_length(seq![o1], graph) == 0);
            lemma_path_length_concat(seq![o1], order.subrange(i + 1, n), graph);
            assert(order.subrange(i + 1, n) =~= seq![o2] + order.subrange(i + 2, n));
            assert(path_length(seq![o2], graph) == 0);
            lemma_path_length_concat(seq![o2], order.subrange(i + 2, n), graph);
            assert(order.subrange(i + 1, n)[0] == o2);
            assert(order.subrange(i + 2, n)[0] == o3);
            let grown = done.push(o2).push(o1).push(o3);
            lemma_path_length_push(done, o2, graph);
            lemma_path_length_push(done.push(o2), o1, graph);
            lemma_path_length_push(done.push(o2).push(o1), o3, graph);
            assert(dist(graph, o0 as int, o2 as int) == apart(pts[i - 1], pts[i + 1]));
            assert(dist(graph, o1 as int, o3 as int) == apart(pts[i], pts[i + 2]));
            assert(dist(graph, o0 as int, o1 as int) == apart(pts[i - 1], pts[i]));
            assert(dist(graph, o2 as int, o3 as int) == apart(pts[i + 1], pts[i + 2]));
            assert(dist(graph, o2 as int, o1 as int) == dist(graph, o1 as int, o2 as int)) by {
                lemma_euclidean_symmetric(
                    points[o1 as int].x,
                    points[o1 as int].y,
                    points[o2 as int].x,
                    points[o2 as int].y,
                );
            }
            lemma_zigzag_run(order, points, graph, i + 3, grown);
            assert(grown[0] == done[0]);
        } else {
            let grown = done.push(o1);
            lemma_path_length_push(done, o1, graph);
            lemma_zigzag_run(order, points, graph, i + 1, grown);
            assert(grown[0] == done[0]);
        }
    }
}

/// The pass does not lengthen a tour, measured by the distances of the points.
pub proof fn lemma_zigzag_no_longer(order: Seq<usize>, points: Seq<Point>, graph: Seq<Vec<u64>>)
    requires
        is_matrix_of(graph, points),
        all_below(order, points.len() as int),
    ensures
        zigzag_order(visits(order, points)).len() == order.len(),
        tour_length(zigzag_order(visits(order, points)), graph) <= tour_length(order, graph),
{
    if order.len() > 0 {
        let first = seq![order[0]];
        assert(path_length(first, graph) == 0);
        lemma_zigzag_run(order, points, graph, 1, first);
        assert(order.subrange(0, order.len() as int) =~= order);
    }
}

/// Sweeps once over the tour `tour_indices` of the cities `points` and
/// exchanges two neighbouring visits wherever that shortens the way; an
/// exchange uses up the two visits and the one behind them.
///
/// Of a tour the result is a tour again, in the order [`zigzag_order`],
/// and no longer under the distance matrix of the points. Of any sequence
/// of cities the result names no city twice.
pub fn optimize(tour_indices: &[usize], points: &[Point], graph: &[Vec<u64>]) -> (new_tour: Vec<
    usize,
>)
    requires
        all_below(tour_indices@, points@.len() as int),
    ensures
        no_repeats(new_tour@),
        all_below(new_tour@, points@.len() as int),
        no_repeats(tour_indices@) ==> new_tour@ == zigzag_order(visits(tour_indices@, points@)),
        is_tour(tour_indices@, tour_indices@.len() as int) ==> is_tour(
            new_tour@,
            tour_indices@.len() as int,
        ),
        no_repeats(tour_indices@) && is_matrix_of(graph@, points@) ==> tour_length(
            new_tour@,
            graph@,
        ) <= tour_length(tour_indices@, graph@),
{
    let n = tour_indices.len();
    // The points in the order of the tour, each under its number in the tour.
    let mut tour_points: Vec<Point> = Vec::new();
    let mut k: usize = 0;
    while k < n
        invariant
            k <= n,
            n == tour_indices@.len(),
            all_below(tour_indices@, points@.len() as int),
            tour_points@ == visits(tour_indices@, points@).take(k as int),
        decreases n - k,
    {
        let idx = tour_indices[k];
        let p = Point { x: points[idx].x, y: points[idx].y, angle: points[idx].angle, id: idx };
        tour_points.push(p);
        proof {
            assert(tour_points@ =~= visits(tour_indices@, points@).take(k + 1));
        }
        k = k + 1;
    }
    let ghost pts = visits(tour_indices@, points@);
    proof {
        assert(pts.take(n as int) =~= pts);
    }
    let mut new_tour: Vec<usize> = Vec::new();
    let mut seen: Vec<bool> = Vec::new();
    k = 0;
    while k < points.len()
        invariant
            k <= points@.len(),
            seen@.len() == k,
            forall|c: int| 0 <= c < k ==> !seen@[c],
        decreases points@.len() - k,
    {
        seen.push(false);
        k = k + 1;
    }
    if n == 0 {
        return new_tour;
    }
    let ghost distinct = no_repeats(tour_indices@);
    add_visit(&mut new_tour, &mut seen, tour_points[0].id);
    proof {
        assert(pts[0].id == tour_indices@[0]);
        assert(new_tour@ =~= seq![tour_indices@[0]]);
        assert forall|c: usize|
            new_tour@.contains(c) <==> exists|k: int| 0 <= k < 1 && tour_indices@[k] == c by {
            if new_tour@.contains(c) {
                let g = choose|g: int| 0 <= g < new_tour@.len() && new_tour@[g] == c;
                assert(tour_indices@[0] == c);
            }
            if exists|k: int| 0 <= k < 1 && tour_indices@[k] == c {
                assert(new_tour@[0] == c);
            }
        }
    }
    let mut i: usize = 1;
    while i < n
        invariant
            1 <= i <= n,
            n == tour_indices@.len(),
            n == tour_points@.len(),
            tour_points@ == pts,
            pts == visits(tour_indices@, points@),
            all_below(tour_indices@, points@.len() as int),
            distinct == no_repeats(tour_indices@),
            seen@.len() == points@.len(),
            no_repeats(new_tour@),
            all_below(new_tour@, points@.len() as int),
            forall|c: usize| c < points@.len() ==> (seen@[c as int] <==> new_tour@.contains(c)),
            distinct ==> new_tour@.len() == i,
            distinct ==> forall|c: usize|
                new_tour@.contains(c) <==> exists|k: int| 0 <= k < i && tour_indices@[k] == c,
            distinct ==> zigzag_run(pts, i as int, new_tour@) == zigzag_order(pts),
        decreases n - i,
    {
        let ghost before = new_tour@;
        if n - i > 2 && should_zigzag(i, tour_points.as_slice()) {
            proof {
                assert((i + 1) % (n as int) == i + 1) by {
                    vstd::arithmetic::div_mod::lemma_small_mod((i + 1) as nat, n as nat);
                }
                assert((i as int) % (n as int) == i) by {
                    vstd::arithmetic::div_mod::lemma_small_mod(i as nat, n as nat);
                }
                assert((i + 2) % (n as int) == i + 2) by {
                    vstd::arithmetic::div_mod::lemma_small_mod((i + 2) as nat, n as nat);
                }
                assert(pts[i - 1].id == tour_indices@[i - 1]);
                assert(pts[i as int].id == tour_indices@[i as int]);
                assert(pts[i + 1].id == tour_indices@[i + 1]);
                assert(pts[i + 2].id == tour_indices@[i + 2]);
            }
            add_visit(&mut new_tour, &mut seen, tour_points[i - 1].id);
            add_visit(&mut new_tour, &mut seen, tour_points[(i + 1) % n].id);
            add_visit(&mut new_tour, &mut seen, tour_points[i % n].id);
            add_visit(&mut new_tour, &mut seen, tour_points[(i + 2) % n].id);
            proof {
                if distinct {
                    let o = tour_indices@;
                    assert(before.contains(o[i - 1]));
                    lemma_unvisited(o, before, i as int, i + 1);
                    lemma_unvisited(o, before, i as int, i as int);
                    lemma_unvisited(o, before, i as int, i + 2);
                    let grown = before.push(o[i + 1]).push(o[i as int]).push(o[i + 2]);
                    assert(new_tour@ == grown);
                    lemma_visited_grows(o, before, grown, i as int, 3);
                }
            }
            i = i + 3;
        } else {
            proof {
                assert((i as int) % (n as int) == i) by {
                    vstd::arithmetic::div_mod::lemma_small_mod(i as nat, n as nat);
                }
                assert(pts[i - 1].id == tour_indices@[i - 1]);
                assert(pts[i as int].id == tour_indices@[i as int]);
            }
            add_visit(&mut new_tour, &mut seen, tour_points[i - 1].id);
            add_visit(&mut new_tour, &mut seen, tour_points[i % n].id);
            proof {
                if distinct {
                    let o = tour_indices@;
                    assert(before.contains(o[i - 1]));
                    lemma_unvisited(o, before, i as int, i as int);
                    let grown = before.push(o[i as int]);
                    assert(new_tour@ == grown);
                    lemma_visited_grows(o, before, grown, i as int, 1);
                }
            }
            i = i + 1;
        }
    }
    proof {
        if distinct {
            if is_matrix_of(graph@, points@) {
                lemma_zigzag_no_longer(tour_indices@, points@, graph@);
            }
            if is_tour(tour_indices@, n as int) {
                assert forall|k: int| 0 <= k < new_tour@.len() implies (#[trigger] new_tour@[k])
                    < n by {
                    assert(new_tour@.contains(new_tour@[k]));
                    let o = choose|o: int| 0 <= o < n && tour_indices@[o] == new_tour@[k];
                    assert(tour_indices@[o] < n);
                }
            }
        }
    }
    new_tour
}

/// Appends `city` to the tour unless the tour has it already.
fn add_visit(tour: &mut Vec<usize>, seen: &mut Vec<bool>, city: usize)
    requires
        city < old(seen)@.len(),
        no_repeats(old(tour)@),
        all_below(old(tour)@, old(seen)@.len() as int),
        forall|c: usize| c < old(seen)@.len() ==> (old(seen)@[c as int] <==> old(tour)@.contains(c)),
    ensures
        final(seen)@.len() == old(seen)@.len(),
        no_repeats(final(tour)@),
        all_below(final(tour)@, final(seen)@.len() as int),
        forall|c: usize|
            c < final(seen)@.len() ==> (final(seen)@[c as int] <==> final(tour)@.contains(c)),
        old(tour)@.contains(city) ==> final(tour)@ == old(tour)@,
        !old(tour)@.contains(city) ==> final(tour)@ == old(tour)@.push(city),
{
    if !seen[city] {
        let ghost before = tour@;
        tour.push(city);
        seen.set(city, true);
        proof {
            assert forall|c: usize| c < seen@.len() implies (seen@[c as int] <==> tour@.contains(
                c,
            )) by {
                if c == city {
                    assert(tour@[before.len() as int] == c);
                } else if before.contains(c) {
                    let k = choose|k: int| 0 <= k < before.len() && before[k] == c;
                    assert(tour@[k] == c);
                } else if tour@.contains(c) {
                    let k = choose|k: int| 0 <= k < tour@.len() && tour@[k] == c;
                    assert(before[k] == c);
                }
            }
            assert forall|a: int, b: int| 0 <= a < b < tour@.len() implies tour@[a] != tour@[b] by {
                if b == before.len() {
                    assert(before.contains(before[a]));
                }
            }
        }
    }
}

/// A city at position `i` or later of a tour without repeats is not among
/// the cities of the positions before `i`.
proof fn lemma_unvisited(order: Seq<usize>, done: Seq<usize>, i: int, at: int)
    requires
        no_repeats(order),
        0 <= i <= at < order.len(),
        forall|c: usize| done.contains(c) <==> exists|k: int| 0 <= k < i && order[k] == c,
    ensures
        !done.contains(order[at]),
{
    if done.contains(order[at]) {
        let k = choose|k: int| 0 <= k < i && order[k] == order[at];
        assert(order[k] != order[at]);
    }
}

/// After the visits of `count` more positions the tour holds the cities
/// of all positions before `i + count`.
proof fn lemma_visited_grows(order: Seq<usize>, done: Seq<usize>, grown: Seq<usize>, i: int, count: int)
    requires
        0 <= i,
        1 <= count <= 3,
        i + count <= order.len(),
        forall|c: usize| done.contains(c) <==> exists|k: int| 0 <= k < i && order[k] == c,
        count == 1 ==> grown == done.push(order[i]),
        count == 3 ==> grown == done.push(order[i + 1]).push(order[i]).push(order[i + 2]),
        count != 2,
    ensures
        forall|c: usize| grown.contains(c) <==> exists|k: int| 0 <= k < i + count && order[k] == c,
{
    assert forall|c: usize| grown.contains(c) <==> exists|k: int|
        0 <= k < i + count && order[k] == c by {
        if grown.contains(c) {
            let g = choose|g: int| 0 <= g < grown.len() && grown[g] == c;
            if g < done.len() {
                assert(done[g] == c);
                assert(done.contains(c));
                let k = choose|k: int| 0 <= k < i && order[k] == c;
                assert(0 <= k < i + count && order[k] == c);
            } else if count == 1 {
                assert(order[i] == c);
            } else {
                assert(order[i] == c || order[i + 1] == c || order[i + 2] == c);
            }
        }
        if exists|k: int| 0 <= k < i + count && order[k] == c {
            let k = choose|k: int| 0 <= k < i + count && order[k] == c;
            if k < i {
                assert(done.contains(c));
                let g = choose|g: int| 0 <= g < done.len() && done[g] == c;
                assert(grown[g] == c);
            } else if count == 1 {
                assert(grown[done.len() as int] == c);
            } else if k == i + 1 {
                assert(grown[done.len() as int] == c);
            } else if k == i {
                assert(grown[done.len() as int + 1] == c);
            } else {
                assert(grown[done.len() as int + 2] == c);
            }
        }
    }
}

} // verus!
