//! The nearest-neighbour construction: from the start city, always go on
//! to the closest city not yet visited.

use vstd::prelude::*;
use crate::tour::{
    all_below, dist, is_square, is_tour, lemma_covering_length, no_repeats,
};

verus! {

/// `tour[k + 1]` is the city closest to `tour[k]` among those that the
/// first `k + 1` entries leave unvisited, the lowest-numbered on a tie.
pub open spec fn is_nearest_step(tour: Seq<usize>, k: int, n: int, graph: Seq<Vec<u64>>) -> bool {
    forall|c: usize|
        c < n && !tour.take(k + 1).contains(c) ==> {
            ||| dist(graph, tour[k] as int, tour[k + 1] as int) < #[trigger] dist(
                graph,
                tour[k] as int,
                c as int,
            )
            ||| dist(graph, tour[k] as int, tour[k + 1] as int) == dist(graph, tour[k] as int, c as int)
                && tour[k + 1] <= c
        }
}

/// Builds a tour of the cities `[0, n)` from `start_city` by moving to the
/// nearest unvisited city each time.
pub fn generate_tour(n: usize, graph: &[Vec<u64>], start_city: usize) -> (tour: Vec<usize>)
    requires
        is_square(graph@),
        n <= graph@.len(),
        n > 0 ==> start_city < n,
    ensures
        is_tour(tour@, n as int),
        n > 0 ==> tour@[0] == start_city,
        forall|k: int| 0 <= k < n - 1 ==> is_nearest_step(tour@, k, n as int, graph@),
{
    let mut tour: Vec<usize> = Vec::new();
    if n == 0 {
        return tour;
    }
    let mut visited: Vec<bool> = Vec::new();
    let mut i: usize = 0;
    while i < n
        invariant
            i <= n,
            visited@.len() == i,
            forall|c: int| 0 <= c < i ==> !visited@[c],
        decreases n - i,
    {
        visited.push(false);
        i = i + 1;
    }
    let mut current = start_city;
    tour.push(current);
    visited.set(current, true);
    assert(tour@[0] == current);
    while tour.len() < n
        invariant
            1 <= tour@.len() <= n,
            visited@.len() == n,
            is_square(graph@),
            n <= graph@.len(),
            current == tour@.last(),
            tour@[0] == start_city,
            all_below(tour@, n as int),
            no_repeats(tour@),
            forall|c: usize| c < n ==> (visited@[c as int] <==> tour@.contains(c)),
            forall|k: int| 0 <= k < tour@.len() - 1 ==> is_nearest_step(tour@, k, n as int, graph@),
        decreases n - tour@.len(),
    {
        let mut nearest: Option<usize> = None;
        let mut nearest_dist: u64 = 0;
        let mut c: usize = 0;
        while c < n
            invariant
                c <= n,
                visited@.len() == n,
                is_square(graph@),
                n <= graph@.len(),
                current < n,
                nearest matches Some(best) ==> best < c && !visited@[best as int] && nearest_dist
                    == dist(graph@, current as int, best as int),
                nearest is None ==> forall|o: int| 0 <= o < c ==> visited@[o],
                forall|o: usize|
                    nearest is Some && o < c && !visited@[o as int] ==> nearest_dist
                        < #[trigger] dist(graph@, current as int, o as int) || (nearest_dist == dist(
                        graph@,
                        current as int,
                        o as int,
                    ) && nearest->0 <= o),
            decreases n - c,
        {
            if !visited[c] {
                let d = graph[current][c];
                if nearest.is_none() || d < nearest_dist {
                    nearest = Some(c);
                    nearest_dist = d;
                }
            }
            c = c + 1;
        }
        proof {
            if nearest is None {
                // Then every city would already stand in the tour.
                lemma_covering_length(tour@, n as int);
            }
        }
        if let Some(next) = nearest {
            let ghost before = tour@;
            tour.push(next);
            visited.set(next, true);
            proof {
                assert(!before.contains(next));
                assert forall|c: usize| c < n implies (visited@[c as int] <==> tour@.contains(c)) by {
                    if c == next {
                        assert(tour@[before.len() as int] == c);
                    } else if before.contains(c) {
                        let k = choose|k: int| 0 <= k < before.len() && before[k] == c;
                        assert(tour@[k] == c);
                    } else if tour@.contains(c) {
                        let k = choose|k: int| 0 <= k < tour@.len() && tour@[k] == c;
                        assert(before[k] == c);
                    }
                }
                assert forall|k: int| 0 <= k < tour@.len() - 1 implies is_nearest_step(
                    tour@,
                    k,
                    n as int,
                    graph@,
                ) by {
                    if k < before.len() - 1 {
                        assert(is_nearest_step(before, k, n as int, graph@));
                        assert(tour@.take(k + 1) =~= before.take(k + 1));
                        assert(tour@[k] == before[k] && tour@[k + 1] == before[k + 1]);
                    } else {
                        assert(tour@.take(k + 1) =~= before);
                    }
                }
                assert forall|a: int, b: int| 0 <= a < b < tour@.len() implies tour@[a]
                    != tour@[b] by {
                    if b == before.len() {
                        assert(before[a] == tour@[a]);
                    }
                }
            }
            current = next;
        }
    }
    tour
}

} // verus!
