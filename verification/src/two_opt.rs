//! The 2-opt local search: while some pair of edges can be exchanged for a
//! shorter pair by reversing the cities between them, do so.

use vstd::prelude::*;
use crate::tour::{
    all_below, copy_tour, dist, is_square, is_symmetric, is_tour, lemma_reversed_segment_is_tour,
    lemma_reversed_segment_length, next_position, reverse_segment, reversed_segment, tour_length,
};

verus! {

/// Exchanging the edges that leave positions `i` and `j` gains nothing.
pub open spec fn is_gainless(tour: Seq<usize>, i: int, j: int, graph: Seq<Vec<u64>>) -> bool {
    let after = next_position(j, tour.len() as int);
    dist(graph, tour[i] as int, tour[j] as int) + dist(graph, tour[i + 1] as int, tour[after] as int)
        >= dist(graph, tour[i] as int, tour[i + 1] as int) + dist(
        graph,
        tour[j] as int,
        tour[after] as int,
    )
}

/// The pairs of positions whose edges 2-opt considers for an exchange:
/// edges that share no city.
pub open spec fn is_exchange(i: int, j: int, n: int) -> bool {
    0 <= i && i + 2 <= j < n && !(i == 0 && j == n - 1)
}

/// No exchange of two edges shortens the tour.
pub open spec fn is_two_opt_optimal(tour: Seq<usize>, graph: Seq<Vec<u64>>) -> bool {
    forall|i: int, j: int| #[trigger]
        is_exchange(i, j, tour.len() as int) ==> is_gainless(tour, i, j, graph)
}

/// The tour after the pair of positions `(i, j)` was looked at: with the
/// cities between the two edges reversed if that shortens the two edges,
/// else unchanged. The flag tells whether anything was reversed so far.
pub open spec fn after_pair(state: (Seq<usize>, bool), i: int, j: int, graph: Seq<Vec<u64>>) -> (
    Seq<usize>,
    bool,
) {
    if is_exchange(i, j, state.0.len() as int) && !is_gainless(state.0, i, j, graph) {
        (reversed_segment(state.0, i + 1, j), true)
    } else {
        state
    }
}

/// The tour at the end of a pass that has come to the pair `(i, j)`: the
/// pairs are looked at with `i` ascending and, for each `i`, `j` ascending
/// from `i + 2`.
pub open spec fn pass_from(state: (Seq<usize>, bool), i: int, j: int, graph: Seq<Vec<u64>>) -> (
    Seq<usize>,
    bool,
)
    decreases state.0.len() - i, state.0.len() - j,
{
    let n = state.0.len() as int;
    if i < 0 || i + 1 >= n {
        state
    } else if j >= n {
        pass_from(state, i + 1, i + 3, graph)
    } else {
        pass_from(after_pair(state, i, j, graph), i, j + 1, graph)
    }
}

/// The tour after at most `budget` passes, the last of which is the first
/// that reverses nothing.
pub open spec fn two_opt(tour: Seq<usize>, graph: Seq<Vec<u64>>, budget: nat) -> Seq<usize>
    decreases budget,
{
    if budget == 0 {
        tour
    } else {
        let passed = pass_from((tour, false), 0, 2, graph);
        if passed.1 {
            two_opt(passed.0, graph, (budget - 1) as nat)
        } else {
            passed.0
        }
    }
}

/// Improves `tour` by 2-opt exchanges, in at most `max_iterations` passes
/// over all pairs of edges.
///
/// The result visits the same cities as `tour`. Under a symmetric matrix
/// it is no longer than `tour`, and either no exchange can shorten it
/// further or every pass shortened it, by one unit of length at least.
pub fn improve(tour: &[usize], graph: &[Vec<u64>], max_iterations: usize) -> (improved: Vec<usize>)
    requires
        is_square(graph@),
        all_below(tour@, graph@.len() as int),
    ensures
        improved@ == two_opt(tour@, graph@, max_iterations as nat),
        improved@.len() == tour@.len(),
        all_below(improved@, graph@.len() as int),
        is_tour(tour@, tour@.len() as int) ==> is_tour(improved@, tour@.len() as int),
        max_iterations == 0 ==> improved@ == tour@,
        is_symmetric(graph@) ==> tour_length(improved@, graph@) <= tour_length(tour@, graph@),
        is_symmetric(graph@) ==> is_two_opt_optimal(improved@, graph@) || tour_length(
            improved@,
            graph@,
        ) + max_iterations <= tour_length(tour@, graph@),
{
    let n = tour.len();
    let mut current_tour = copy_tour(tour);
    if n == 0 {
        return current_tour;
    }
    let mut changed = true;
    let mut iterations: usize = 0;
    let ghost symmetric = is_symmetric(graph@);
    let ghost given = tour_length(tour@, graph@);
    while changed && iterations < max_iterations
        invariant
            n == tour@.len(),
            n >= 1,
            current_tour@.len() == n,
            iterations <= max_iterations,
            is_square(graph@),
            symmetric == is_symmetric(graph@),
            given == tour_length(tour@, graph@),
            all_below(current_tour@, graph@.len() as int),
            is_tour(tour@, n as int) ==> is_tour(current_tour@, n as int),
            iterations == 0 ==> current_tour@ == tour@,
            symmetric && changed ==> tour_length(current_tour@, graph@) + iterations <= given,
            symmetric && !changed ==> tour_length(current_tour@, graph@) <= given,
            !changed ==> is_two_opt_optimal(current_tour@, graph@),
            two_opt(tour@, graph@, max_iterations as nat) == if changed {
                two_opt(current_tour@, graph@, (max_iterations - iterations) as nat)
            } else {
                current_tour@
            },
        decreases max_iterations - iterations,
    {
        changed = false;
        iterations = iterations + 1;
        let ghost at_start = current_tour@;
        let ghost pass_end = pass_from((at_start, false), 0, 2, graph@);
        let ghost length_at_start = tour_length(current_tour@, graph@);
        let mut i: usize = 0;
        while i < n - 1
            invariant
                i <= n - 1,
                n >= 1,
                current_tour@.len() == n,
                is_square(graph@),
                symmetric == is_symmetric(graph@),
                all_below(current_tour@, graph@.len() as int),
                is_tour(tour@, n as int) ==> is_tour(current_tour@, n as int),
                n == tour@.len(),
                at_start.len() == n,
                length_at_start == tour_length(at_start, graph@),
                !changed ==> current_tour@ == at_start,
                symmetric && changed ==> tour_length(current_tour@, graph@) + 1 <= length_at_start,
                !changed ==> forall|a: int, b: int| #[trigger]
                    is_exchange(a, b, n as int) && a < i ==> is_gainless(at_start, a, b, graph@),
                pass_from((current_tour@, changed), i as int, i + 2, graph@) == pass_end,
            decreases n - 1 - i,
        {
            let mut j: usize = i + 2;
            while j < n
                invariant
                    i < n - 1,
                    i + 2 <= j,
                    n >= 1,
                    current_tour@.len() == n,
                    is_square(graph@),
                    symmetric == is_symmetric(graph@),
                    all_below(current_tour@, graph@.len() as int),
                    is_tour(tour@, n as int) ==> is_tour(current_tour@, n as int),
                    n == tour@.len(),
                    at_start.len() == n,
                    length_at_start == tour_length(at_start, graph@),
                    !changed ==> current_tour@ == at_start,
                    symmetric && changed ==> tour_length(current_tour@, graph@) + 1
                        <= length_at_start,
                    !changed ==> forall|a: int, b: int| #[trigger]
                        is_exchange(a, b, n as int) && (a < i || (a == i && b < j)) ==> is_gainless(
                            at_start,
                            a,
                            b,
                            graph@,
                        ),
                    pass_from((current_tour@, changed), i as int, j as int, graph@) == pass_end,
                decreases n - j,
            {
                let ghost state = (current_tour@, changed);
                proof {
                    assert(pass_from(state, i as int, j as int, graph@) == pass_from(
                        after_pair(state, i as int, j as int, graph@),
                        i as int,
                        j + 1,
                        graph@,
                    ));
                }
                // The first and the last edge of the tour share its first city.
                if !(j == n - 1 && i == 0) {
                    let after = if j + 1 == n { 0 } else { j + 1 };
                    let a = current_tour[i];
                    let b = current_tour[i + 1];
                    let c = current_tour[j];
                    let d = current_tour[after];
                    let current_distance = graph[a][b] as u128 + graph[c][d] as u128;
                    let new_distance = graph[a][c] as u128 + graph[b][d] as u128;
                    if new_distance < current_distance {
                        let ghost before = current_tour@;
                        reverse_segment(&mut current_tour, i + 1, j);
                        proof {
                            lemma_reversed_segment_is_tour(before, i + 1, j as int, n as int);
                            lemma_reversed_segment_is_tour(
                                before,
                                i + 1,
                                j as int,
                                graph@.len() as int,
                            );
                            if symmetric {
                                lemma_reversed_segment_length(before, i + 1, j as int, graph@);
                            }
                        }
                        changed = true;
                    }
                }
                proof {
                    assert((current_tour@, changed) == after_pair(
                        state,
                        i as int,
                        j as int,
                        graph@,
                    ));
                }
                j = j + 1;
            }
            proof {
                let state = (current_tour@, changed);
                assert(pass_from(state, i as int, j as int, graph@) == pass_from(
                    state,
                    i + 1,
                    i + 3,
                    graph@,
                ));
            }
            i = i + 1;
        }
        proof {
            if !changed {
                assert forall|a: int, b: int| #[trigger]
                    is_exchange(a, b, n as int) implies is_gainless(
                    current_tour@,
                    a,
                    b,
                    graph@,
                ) by {
                    assert(a < n - 1);
                }
            }
        }
    }
    current_tour
}

} // verus!
