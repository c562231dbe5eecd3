//! Simulated annealing over segment reversals.
//!
//! Each iteration proposes to reverse the part of the tour between two
//! random positions. A proposal that shortens the tour is taken; one that
//! lengthens it is taken if the increase is below the slack that the
//! cooling schedule allows at that iteration. The shortest tour seen is
//! kept aside and returned.

use rand::rngs::ThreadRng;
use vstd::prelude::*;
use crate::random::random_position;
use crate::tour::{
    all_below, copy_tour, dist, is_square, is_tour, lemma_reversed_segment_is_tour, reverse_segment,
    reversed_segment, tour_length,
};
use crate::utils::calculate_tour_length;

verus! {

/// The length of the two edges that enter and leave the segment from `lo`
/// to `hi` of `tour`, as the tour stands.
pub open spec fn edges_around(tour: Seq<usize>, lo: int, hi: int, graph: Seq<Vec<u64>>) -> int {
    let n = tour.len() as int;
    let before = (lo + n - 1) % n;
    let after = (hi + 1) % n;
    dist(graph, tour[before] as int, tour[lo] as int) + dist(
        graph,
        tour[hi] as int,
        tour[after] as int,
    )
}

/// The length of the two edges that would enter and leave the segment
/// from `lo` to `hi` of `tour` if it were reversed.
pub open spec fn edges_around_reversed(tour: Seq<usize>, lo: int, hi: int, graph: Seq<Vec<u64>>) -> int {
    let n = tour.len() as int;
    let before = (lo + n - 1) % n;
    let after = (hi + 1) % n;
    dist(graph, tour[before] as int, tour[hi] as int) + dist(
        graph,
        tour[lo] as int,
        tour[after] as int,
    )
}

/// The proposal to reverse the segment between positions `i` and `j` is
/// taken: it shortens the two edges around the segment, or lengthens them
/// by less than `slack`.
pub open spec fn is_taken(tour: Seq<usize>, i: int, j: int, slack: u64, graph: Seq<Vec<u64>>) -> bool {
    let lo = if i < j { i } else { j };
    let hi = if i < j { j } else { i };
    let old_edges = edges_around(tour, lo, hi, graph);
    let new_edges = edges_around_reversed(tour, lo, hi, graph);
    new_edges < old_edges || new_edges - old_edges < slack
}

/// Decides the proposal to reverse the part of `tour` between positions
/// `i` and `j`, and carries it out if it is taken.
pub fn propose(graph: &[Vec<u64>], tour: &mut Vec<usize>, i: usize, j: usize, slack: u64) -> (taken:
    bool)
    requires
        is_square(graph@),
        all_below(old(tour)@, graph@.len() as int),
        i < old(tour)@.len(),
        j < old(tour)@.len(),
        i != j,
    ensures
        taken == is_taken(old(tour)@, i as int, j as int, slack, graph@),
        taken ==> final(tour)@ == reversed_segment(
            old(tour)@,
            if i < j { i as int } else { j as int },
            if i < j { j as int } else { i as int },
        ),
        !taken ==> final(tour)@ == old(tour)@,
{
    let n = tour.len();
    let (lo, hi) = if i < j { (i, j) } else { (j, i) };
    let before = if lo == 0 { n - 1 } else { lo - 1 };
    let after = if hi + 1 == n { 0 } else { hi + 1 };
    proof {
        assert((lo + n - 1) % (n as int) == before) by {
            if lo == 0 {
                vstd::arithmetic::div_mod::lemma_small_mod((n - 1) as nat, n as nat);
            } else {
                vstd::arithmetic::div_mod::lemma_mod_add_multiples_vanish(lo - 1, n as int);
                vstd::arithmetic::div_mod::lemma_small_mod((lo - 1) as nat, n as nat);
            }
        }
        assert((hi + 1) % (n as int) == after) by {
            if hi + 1 == n {
                vstd::arithmetic::div_mod::lemma_mod_self_0(n as int);
            } else {
                vstd::arithmetic::div_mod::lemma_small_mod((hi + 1) as nat, n as nat);
            }
        }
    }
    let a = tour[before];
    let b = tour[lo];
    let c = tour[hi];
    let d = tour[after];
    let old_edges = graph[a][b] as u128 + graph[c][d] as u128;
    let new_edges = graph[a][c] as u128 + graph[b][d] as u128;
    if new_edges < old_edges || new_edges - old_edges < slack as u128 {
        reverse_segment(tour, lo, hi);
        true
    } else {
        false
    }
}

/// Anneals `initial_tour` for as many iterations as `slack` has entries.
///
/// `slack[k]` is the increase in length below which iteration `k` takes a
/// lengthening proposal: for the Metropolis rule at temperature `t` it is
/// `-t * ln(u)` for a uniform draw `u` from the unit interval. The two
/// positions of each proposal are drawn here. The result is the shortest
/// tour that the walk passed through, the initial tour included.
pub fn optimize(graph: &[Vec<u64>], initial_tour: &[usize], slack: &[u64]) -> (best: Vec<usize>)
    requires
        is_square(graph@),
        all_below(initial_tour@, graph@.len() as int),
    ensures
        best@.len() == initial_tour@.len(),
        all_below(best@, graph@.len() as int),
        is_tour(initial_tour@, initial_tour@.len() as int) ==> is_tour(
            best@,
            initial_tour@.len() as int,
        ),
        tour_length(best@, graph@) <= tour_length(initial_tour@, graph@),
        slack@.len() == 0 || initial_tour@.len() < 2 ==> best@ == initial_tour@,
{
    let n = initial_tour.len();
    let mut best_tour = copy_tour(initial_tour);
    if n < 2 {
        return best_tour;
    }
    let mut rng: ThreadRng = rand::thread_rng();
    let mut current_tour = copy_tour(initial_tour);
    let mut best_length = calculate_tour_length(initial_tour, graph);
    let mut k: usize = 0;
    while k < slack.len()
        invariant
            k <= slack@.len(),
            n == initial_tour@.len(),
            n >= 2,
            is_square(graph@),
            current_tour@.len() == n,
            best_tour@.len() == n,
            all_below(current_tour@, graph@.len() as int),
            all_below(best_tour@, graph@.len() as int),
            is_tour(initial_tour@, n as int) ==> is_tour(current_tour@, n as int) && is_tour(
                best_tour@,
                n as int,
            ),
            best_length == tour_length(best_tour@, graph@),
            best_length <= tour_length(initial_tour@, graph@),
            k == 0 ==> best_tour@ == initial_tour@,
        decreases slack@.len() - k,
    {
        // Two different positions: the second is drawn from one fewer and
        // moved up past the first.
        let i = random_position(&mut rng, n - 1);
        let mut j = random_position(&mut rng, n - 1);
        if j >= i {
            j = j + 1;
        }
        let ghost before = current_tour@;
        if propose(graph, &mut current_tour, i, j, slack[k]) {
            proof {
                let lo = if i < j { i as int } else { j as int };
                let hi = if i < j { j as int } else { i as int };
                lemma_reversed_segment_is_tour(before, lo, hi, n as int);
                lemma_reversed_segment_is_tour(before, lo, hi, graph@.len() as int);
            }
            let current_length = calculate_tour_length(current_tour.as_slice(), graph);
            if current_length < best_length {
                best_tour = copy_tour(current_tour.as_slice());
                best_length = current_length;
            }
        }
        k = k + 1;
    }
    best_tour
}

} // verus!
