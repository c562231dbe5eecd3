//! The mathematical model shared by every solver: tours as sequences of
//! city indices, distance matrices as sequences of rows, and the length
//! of a path or of a closed tour.

use vstd::prelude::*;

verus! {

/// Every row of the matrix is as long as the matrix has rows.
pub open spec fn is_square(graph: Seq<Vec<u64>>) -> bool {
    forall|i: int| 0 <= i < graph.len() ==> (#[trigger] graph[i]).len() == graph.len()
}

/// The distance from city `i` to city `j`.
pub open spec fn dist(graph: Seq<Vec<u64>>, i: int, j: int) -> int {
    graph[i]@[j] as int
}

/// The distance from `i` to `j` equals the distance from `j` to `i`.
pub open spec fn is_symmetric(graph: Seq<Vec<u64>>) -> bool {
    forall|i: int, j: int|
        0 <= i < graph.len() && 0 <= j < graph.len() ==> #[trigger] dist(graph, i, j) == dist(
            graph,
            j,
            i,
        )
}

/// Every city is at distance zero from itself.
pub open spec fn has_zero_diagonal(graph: Seq<Vec<u64>>) -> bool {
    forall|i: int| 0 <= i < graph.len() ==> #[trigger] dist(graph, i, i) == 0
}

/// A distance matrix: square, symmetric, zero on the diagonal.
pub open spec fn is_distance_matrix(graph: Seq<Vec<u64>>) -> bool {
    &&& is_square(graph)
    &&& is_symmetric(graph)
    &&& has_zero_diagonal(graph)
}

/// Every entry of the sequence names a city below `n`.
pub open spec fn all_below(tour: Seq<usize>, n: int) -> bool {
    forall|k: int| 0 <= k < tour.len() ==> (#[trigger] tour[k]) < n
}

/// No city occurs twice in the sequence.
pub open spec fn no_repeats(tour: Seq<usize>) -> bool {
    forall|i: int, j: int| 0 <= i < j < tour.len() ==> tour[i] != tour[j]
}

/// The sequence visits each city of `[0, n)` exactly once.
pub open spec fn is_tour(tour: Seq<usize>, n: int) -> bool {
    &&& tour.len() == n
    &&& all_below(tour, n)
    &&& no_repeats(tour)
}

/// The summed distance along consecutive entries of `path`, not closing
/// the cycle.
pub open spec fn path_length(path: Seq<usize>, graph: Seq<Vec<u64>>) -> int
    decreases path.len(),
{
    if path.len() <= 1 {
        0
    } else {
        path_length(path.drop_last(), graph) + dist(
            graph,
            path[path.len() - 2] as int,
            path[path.len() - 1] as int,
        )
    }
}

/// The length of the closed tour: the path through all entries plus the
/// edge from the last entry back to the first.
pub open spec fn tour_length(tour: Seq<usize>, graph: Seq<Vec<u64>>) -> int {
    if tour.len() == 0 {
        0
    } else {
        path_length(tour, graph) + dist(graph, tour.last() as int, tour[0] as int)
    }
}

/// Appending a city lengthens a path by the edge from its last city.
pub proof fn lemma_path_length_push(path: Seq<usize>, city: usize, graph: Seq<Vec<u64>>)
    requires
        path.len() >= 1,
    ensures
        path_length(path.push(city), graph) == path_length(path, graph) + dist(
            graph,
            path.last() as int,
            city as int,
        ),
{
    assert(path.push(city).drop_last() =~= path);
}

/// The length of two paths joined is the sum of their lengths and of the
/// edge that joins them.
pub proof fn lemma_path_length_concat(a: Seq<usize>, b: Seq<usize>, graph: Seq<Vec<u64>>)
    requires
        a.len() >= 1,
        b.len() >= 1,
    ensures
        path_length(a + b, graph) == path_length(a, graph) + dist(
            graph,
            a.last() as int,
            b[0] as int,
        ) + path_length(b, graph),
    decreases b.len(),
{
    if b.len() == 1 {
        assert(a + b =~= a.push(b[0]));
        lemma_path_length_push(a, b[0], graph);
    } else {
        let front = b.drop_last();
        lemma_path_length_concat(a, front, graph);
        assert(a + b =~= (a + front).push(b.last()));
        lemma_path_length_push(a + front, b.last(), graph);
        assert(b =~= front.push(b.last()));
        lemma_path_length_push(front, b.last(), graph);
    }
}

/// A tour has the same length from whichever of its cities it is begun.
pub proof fn lemma_tour_length_rotate(tour: Seq<usize>, k: int, graph: Seq<Vec<u64>>)
    requires
        0 <= k <= tour.len(),
    ensures
        tour_length(tour.subrange(k, tour.len() as int) + tour.subrange(0, k), graph)
            == tour_length(tour, graph),
{
    let a = tour.subrange(0, k);
    let b = tour.subrange(k, tour.len() as int);
    if k == 0 || k == tour.len() {
        assert(b + a =~= tour);
    } else {
        assert(a + b =~= tour);
        lemma_path_length_concat(a, b, graph);
        lemma_path_length_concat(b, a, graph);
    }
}

/// Beginning a tour at another of its cities leaves it a tour.
pub proof fn lemma_rotate_is_tour(tour: Seq<usize>, k: int, n: int)
    requires
        0 <= k <= tour.len(),
        is_tour(tour, n),
    ensures
        is_tour(tour.subrange(k, tour.len() as int) + tour.subrange(0, k), n),
{
    let a = tour.subrange(0, k);
    let b = tour.subrange(k, tour.len() as int);
    let r = b + a;
    assert forall|i: int| 0 <= i < r.len() implies (#[trigger] r[i]) < n by {
        if i < b.len() {
            assert(r[i] == tour[i + k]);
        } else {
            assert(r[i] == tour[i - b.len()]);
        }
    }
    assert forall|i: int, j: int| 0 <= i < j < r.len() implies r[i] != r[j] by {
        let oi = if i < b.len() { i + k } else { i - b.len() };
        let oj = if j < b.len() { j + k } else { j - b.len() };
        assert(r[i] == tour[oi]);
        assert(r[j] == tour[oj]);
    }
}

/// Under a symmetric matrix a path is as long backwards as forwards.
pub proof fn lemma_path_length_reverse(path: Seq<usize>, graph: Seq<Vec<u64>>)
    requires
        is_symmetric(graph),
        all_below(path, graph.len() as int),
    ensures
        path_length(path.reverse(), graph) == path_length(path, graph),
    decreases path.len(),
{
    if path.len() <= 1 {
        assert(path.reverse().len() == path.len());
    } else {
        let front = path.drop_last();
        let last = path.last();
        lemma_path_length_reverse(front, graph);
        assert(path.reverse() =~= seq![last] + front.reverse());
        lemma_path_length_concat(seq![last], front.reverse(), graph);
        assert(path_length(seq![last], graph) == 0);
        assert(front.reverse()[0] == front.last());
        assert(dist(graph, last as int, front.last() as int) == dist(
            graph,
            front.last() as int,
            last as int,
        ));
    }
}

/// Under a symmetric matrix a tour is as long backwards as forwards.
pub proof fn lemma_tour_length_reverse(tour: Seq<usize>, graph: Seq<Vec<u64>>)
    requires
        is_symmetric(graph),
        all_below(tour, graph.len() as int),
    ensures
        tour_length(tour.reverse(), graph) == tour_length(tour, graph),
{
    if tour.len() > 0 {
        lemma_path_length_reverse(tour, graph);
        assert(tour.reverse().last() == tour[0]);
        assert(tour.reverse()[0] == tour.last());
        assert(dist(graph, tour[0] as int, tour.last() as int) == dist(
            graph,
            tour.last() as int,
            tour[0] as int,
        ));
    } else {
        assert(tour.reverse().len() == 0);
    }
}

/// A sequence without repeats whose entries lie below `n` has at most `n` entries.
pub proof fn lemma_no_repeats_bounds_length(s: Seq<usize>, n: int)
    requires
        0 <= n,
        no_repeats(s),
        all_below(s, n),
    ensures
        s.len() <= n,
    decreases n,
{
    if n == 0 {
        if s.len() > 0 {
            assert(s[0] < n);
        }
    } else if exists|k: int| 0 <= k < s.len() && s[k] == n - 1 {
        let k = choose|k: int| 0 <= k < s.len() && s[k] == n - 1;
        let rest = s.remove(k);
        assert forall|i: int| 0 <= i < rest.len() implies (#[trigger] rest[i]) < n - 1 by {
            let o = if i < k { i } else { i + 1 };
            assert(rest[i] == s[o]);
            assert(s[o] < n);
            if o < k {
                assert(s[o] != s[k]);
            } else {
                assert(s[k] != s[o]);
            }
        }
        assert forall|i: int, j: int| 0 <= i < j < rest.len() implies rest[i] != rest[j] by {
            let oi = if i < k { i } else { i + 1 };
            let oj = if j < k { j } else { j + 1 };
            assert(rest[i] == s[oi]);
            assert(rest[j] == s[oj]);
        }
        lemma_no_repeats_bounds_length(rest, n - 1);
    } else {
        assert forall|i: int| 0 <= i < s.len() implies (#[trigger] s[i]) < n - 1 by {
            assert(s[i] < n);
        }
        lemma_no_repeats_bounds_length(s, n - 1);
    }
}

/// Every city of `[0, n)` occurs in a tour of `n` cities.
pub proof fn lemma_tour_visits_every_city(tour: Seq<usize>, n: int, city: usize)
    requires
        is_tour(tour, n),
        city < n,
    ensures
        exists|k: int| 0 <= k < n && tour[k] == city,
{
    if !(exists|k: int| 0 <= k < n && tour[k] == city) {
        // Close the gap that `city` leaves: the cities above it move down by one.
        let packed = Seq::new(
            tour.len(),
            |k: int| if tour[k] > city { (tour[k] - 1) as usize } else { tour[k] },
        );
        assert forall|i: int| 0 <= i < packed.len() implies (#[trigger] packed[i]) < n - 1 by {
            assert(tour[i] < n);
            assert(tour[i] != city);
        }
        assert forall|i: int, j: int| 0 <= i < j < packed.len() implies packed[i] != packed[j] by {
            assert(tour[i] != tour[j]);
            assert(tour[i] != city);
            assert(tour[j] != city);
        }
        lemma_no_repeats_bounds_length(packed, n - 1);
    }
}

/// The position of `city` in a tour that visits it.
pub open spec fn position_of(tour: Seq<usize>, city: usize) -> int {
    choose|k: int| 0 <= k < tour.len() && tour[k] == city
}

/// The tour begun at city 0.
pub open spec fn from_city_zero(tour: Seq<usize>) -> Seq<usize> {
    let k = position_of(tour, 0);
    tour.subrange(k, tour.len() as int) + tour.subrange(0, k)
}

/// Every tour can be begun at city 0 without changing its length.
pub proof fn lemma_from_city_zero(tour: Seq<usize>, n: int, graph: Seq<Vec<u64>>)
    requires
        is_tour(tour, n),
        n >= 1,
    ensures
        is_tour(from_city_zero(tour), n),
        from_city_zero(tour)[0] == 0,
        tour_length(from_city_zero(tour), graph) == tour_length(tour, graph),
{
    lemma_tour_visits_every_city(tour, n, 0);
    let k = position_of(tour, 0);
    lemma_rotate_is_tour(tour, k, n);
    lemma_tour_length_rotate(tour, k, graph);
}

/// No tour of `n` cities is shorter than `length`.
pub open spec fn is_optimal_length(length: int, n: int, graph: Seq<Vec<u64>>) -> bool {
    forall|tour: Seq<usize>| #[trigger] is_tour(tour, n) ==> length <= tour_length(tour, graph)
}

/// `length` is the length of a shortest tour of `n` cities: some tour has
/// it and none is shorter.
pub open spec fn is_shortest_tour_length(length: int, n: int, graph: Seq<Vec<u64>>) -> bool {
    &&& exists|tour: Seq<usize>| #[trigger] is_tour(tour, n) && tour_length(tour, graph) == length
    &&& is_optimal_length(length, n, graph)
}

/// The length of a shortest tour is one number: whatever two exact solvers
/// return as that length on one instance, they return the same.
pub proof fn lemma_shortest_tour_length_unique(a: int, b: int, n: int, graph: Seq<Vec<u64>>)
    requires
        is_shortest_tour_length(a, n, graph),
        is_shortest_tour_length(b, n, graph),
    ensures
        a == b,
{
    let ta = choose|tour: Seq<usize>| #[trigger] is_tour(tour, n) && tour_length(tour, graph) == a;
    let tb = choose|tour: Seq<usize>| #[trigger] is_tour(tour, n) && tour_length(tour, graph) == b;
    assert(is_tour(ta, n) && is_tour(tb, n));
}

/// A tour read backwards is a tour.
pub proof fn lemma_reverse_is_tour(tour: Seq<usize>, n: int)
    requires
        is_tour(tour, n),
    ensures
        is_tour(tour.reverse(), n),
{
    let r = tour.reverse();
    assert forall|k: int| 0 <= k < r.len() implies (#[trigger] r[k]) < n by {
        assert(r[k] == tour[tour.len() - 1 - k]);
    }
    assert forall|i: int, j: int| 0 <= i < j < r.len() implies r[i] != r[j] by {
        assert(r[i] == tour[tour.len() - 1 - i]);
        assert(r[j] == tour[tour.len() - 1 - j]);
    }
}

/// Two tours that agree on all but their last city agree on that too.
pub proof fn lemma_last_city_forced(a: Seq<usize>, b: Seq<usize>, n: int)
    requires
        is_tour(a, n),
        is_tour(b, n),
        forall|k: int| 0 <= k < n - 1 ==> a[k] == b[k],
    ensures
        a == b,
{
    if n >= 1 {
        lemma_tour_visits_every_city(b, n, a[n - 1]);
        let k = choose|k: int| 0 <= k < n && b[k] == a[n - 1];
        if k < n - 1 {
            assert(a[k] != a[n - 1]);
        }
    }
    assert(a =~= b);
}

/// The tour that visits the cities in the order of their numbers.
pub open spec fn identity_tour(n: int) -> Seq<usize> {
    Seq::new(n as nat, |k: int| k as usize)
}

/// A copy of `tour`.
pub fn copy_tour(tour: &[usize]) -> (copy: Vec<usize>)
    ensures
        copy@ == tour@,
{
    let mut copy: Vec<usize> = Vec::new();
    let mut i: usize = 0;
    while i < tour.len()
        invariant
            i <= tour@.len(),
            copy@ == tour@.take(i as int),
        decreases tour@.len() - i,
    {
        copy.push(tour[i]);
        proof {
            assert(copy@ =~= tour@.take(i + 1));
        }
        i = i + 1;
    }
    proof {
        assert(tour@.take(tour@.len() as int) =~= tour@);
    }
    copy
}

/// The tour that visits the cities in the order of their numbers.
pub fn make_identity_tour(n: usize) -> (tour: Vec<usize>)
    ensures
        tour@ == identity_tour(n as int),
        is_tour(tour@, n as int),
{
    let mut tour: Vec<usize> = Vec::new();
    let mut i: usize = 0;
    while i < n
        invariant
            i <= n,
            tour@.len() == i,
            forall|k: int| 0 <= k < i ==> tour@[k] == k,
        decreases n - i,
    {
        tour.push(i);
        i = i + 1;
    }
    proof {
        assert(tour@ =~= identity_tour(n as int));
    }
    tour
}

/// Exchanges the cities at positions `i` and `j`.
pub fn swap_cities(tour: &mut Vec<usize>, i: usize, j: usize)
    requires
        i < old(tour)@.len(),
        j < old(tour)@.len(),
    ensures
        final(tour)@ == old(tour)@.update(i as int, old(tour)@[j as int]).update(
            j as int,
            old(tour)@[i as int],
        ),
{
    let a = tour[i];
    let b = tour[j];
    tour.set(i, b);
    tour.set(j, a);
}

/// Exchanging two cities of a tour leaves it a tour.
pub proof fn lemma_swap_is_tour(tour: Seq<usize>, i: int, j: int, n: int)
    requires
        is_tour(tour, n),
        0 <= i < n,
        0 <= j < n,
    ensures
        is_tour(tour.update(i, tour[j]).update(j, tour[i]), n),
{
    let swapped = tour.update(i, tour[j]).update(j, tour[i]);
    assert forall|a: int, b: int| 0 <= a < b < swapped.len() implies swapped[a] != swapped[b] by {
        let oa = if a == i { j } else if a == j { i } else { a };
        let ob = if b == i { j } else if b == j { i } else { b };
        assert(swapped[a] == tour[oa]);
        assert(swapped[b] == tour[ob]);
        if oa < ob {
            assert(tour[oa] != tour[ob]);
        } else {
            assert(tour[ob] != tour[oa]);
        }
    }
}

/// A sequence in which every city of `[0, n)` occurs has at least `n` entries.
pub proof fn lemma_covering_length(s: Seq<usize>, n: int)
    requires
        0 <= n <= usize::MAX,
        forall|c: usize| c < n ==> s.contains(c),
    ensures
        s.len() >= n,
    decreases n,
{
    if n > 0 {
        let top = (n - 1) as usize;
        assert(s.contains(top));
        let k = choose|k: int| 0 <= k < s.len() && s[k] == top;
        let rest = s.remove(k);
        assert forall|c: usize| c < n - 1 implies rest.contains(c) by {
            assert(s.contains(c));
            let i = choose|i: int| 0 <= i < s.len() && s[i] == c;
            if i < k {
                assert(rest[i] == c);
            } else {
                assert(rest[i - 1] == c);
            }
        }
        lemma_covering_length(rest, n - 1);
    }
}

/// The sequence with its entries from `lo` to `hi`, both included, in
/// reverse order.
pub open spec fn reversed_segment(s: Seq<usize>, lo: int, hi: int) -> Seq<usize> {
    Seq::new(s.len(), |k: int| if lo <= k <= hi { s[lo + hi - k] } else { s[k] })
}

/// The position after `k` on a cycle of `n` positions.
pub open spec fn next_position(k: int, n: int) -> int {
    if k + 1 == n { 0 } else { k + 1 }
}

/// Reverses the entries of `tour` from `lo` to `hi`, both included.
pub fn reverse_segment(tour: &mut Vec<usize>, lo: usize, hi: usize)
    requires
        lo <= hi < old(tour)@.len(),
    ensures
        final(tour)@ == reversed_segment(old(tour)@, lo as int, hi as int),
{
    let mut a = lo;
    let mut b = hi;
    while a < b
        invariant
            lo <= a,
            b <= hi,
            a + b == lo + hi,
            a <= b + 1,
            tour@.len() == old(tour)@.len(),
            hi < tour@.len(),
            forall|k: int|
                0 <= k < tour@.len() ==> tour@[k] == if lo <= k < a || b < k <= hi {
                    old(tour)@[lo + hi - k]
                } else {
                    old(tour)@[k]
                },
        decreases b + 1 - a,
    {
        swap_cities(tour, a, b);
        a = a + 1;
        b = b - 1;
    }
    proof {
        assert(tour@ =~= reversed_segment(old(tour)@, lo as int, hi as int));
    }
}

/// Reversing a segment of a tour leaves it a tour, and leaves the cities
/// of any sequence below whatever bound they were below.
pub proof fn lemma_reversed_segment_is_tour(s: Seq<usize>, lo: int, hi: int, n: int)
    requires
        0 <= lo <= hi < s.len(),
    ensures
        all_below(s, n) ==> all_below(reversed_segment(s, lo, hi), n),
        no_repeats(s) ==> no_repeats(reversed_segment(s, lo, hi)),
        is_tour(s, n) ==> is_tour(reversed_segment(s, lo, hi), n),
{
    let r = reversed_segment(s, lo, hi);
    if all_below(s, n) {
        assert forall|k: int| 0 <= k < r.len() implies (#[trigger] r[k]) < n by {
            if lo <= k <= hi {
                assert(r[k] == s[lo + hi - k]);
            }
        }
    }
    if no_repeats(s) {
        assert forall|a: int, b: int| 0 <= a < b < r.len() implies r[a] != r[b] by {
            let oa = if lo <= a <= hi { lo + hi - a } else { a };
            let ob = if lo <= b <= hi { lo + hi - b } else { b };
            assert(r[a] == s[oa]);
            assert(r[b] == s[ob]);
            if oa < ob {
                assert(s[oa] != s[ob]);
            } else {
                assert(s[ob] != s[oa]);
            }
        }
    }
}

/// Under a symmetric matrix, reversing the segment from `lo` to `hi` of a
/// tour changes its length by the two edges that enter and leave the
/// segment: the edges `(lo - 1, lo)` and `(hi, hi + 1)` give way to
/// `(lo - 1, hi)` and `(lo, hi + 1)`.
pub proof fn lemma_reversed_segment_length(
    tour: Seq<usize>,
    lo: int,
    hi: int,
    graph: Seq<Vec<u64>>,
)
    requires
        1 <= lo <= hi < tour.len(),
        is_symmetric(graph),
        all_below(tour, graph.len() as int),
    ensures
        tour_length(reversed_segment(tour, lo, hi), graph) == tour_length(tour, graph) - dist(
            graph,
            tour[lo - 1] as int,
            tour[lo] as int,
        ) - dist(graph, tour[hi] as int, tour[next_position(hi, tour.len() as int)] as int) + dist(
            graph,
            tour[lo - 1] as int,
            tour[hi] as int,
        ) + dist(graph, tour[lo] as int, tour[next_position(hi, tour.len() as int)] as int),
{
    let n = tour.len() as int;
    let head = tour.subrange(0, lo);
    let mid = tour.subrange(lo, hi + 1);
    let tail = tour.subrange(hi + 1, n);
    let turned = reversed_segment(tour, lo, hi);
    assert(turned.subrange(0, lo) =~= head);
    assert(turned.subrange(lo, hi + 1) =~= mid.reverse());
    assert(turned.subrange(hi + 1, n) =~= tail);
    assert forall|k: int| 0 <= k < mid.len() implies (#[trigger] mid[k]) < graph.len() by {
        assert(mid[k] == tour[lo + k]);
    }
    lemma_path_length_reverse(mid, graph);
    assert(mid.reverse()[0] == mid.last());
    assert(mid.reverse().last() == mid[0]);
    if hi + 1 == n {
        assert(tour =~= head + mid);
        assert(turned =~= head + mid.reverse());
        lemma_path_length_concat(head, mid, graph);
        lemma_path_length_concat(head, mid.reverse(), graph);
    } else {
        assert(tour =~= head + (mid + tail));
        assert(turned =~= head + (mid.reverse() + tail));
        lemma_path_length_concat(mid, tail, graph);
        lemma_path_length_concat(mid.reverse(), tail, graph);
        lemma_path_length_concat(head, mid + tail, graph);
        lemma_path_length_concat(head, mid.reverse() + tail, graph);
    }
}

/// The position `steps` behind `from` on a cycle of `n` positions is one
/// behind the position `steps - 1` behind it.
pub proof fn lemma_next_position(from: int, steps: int, n: int)
    requires
        0 <= from < n,
        0 <= steps,
    ensures
        (from + steps + 1) % n == if (from + steps) % n + 1 == n {
            0
        } else {
            (from + steps) % n + 1
        },
        0 <= (from + steps) % n < n,
{
    let q = (from + steps) / n;
    let r = (from + steps) % n;
    vstd::arithmetic::div_mod::lemma_fundamental_div_mod(from + steps, n);
    vstd::arithmetic::div_mod::lemma_mod_bound(from + steps, n);
    if r + 1 == n {
        assert(from + steps + 1 == n * (q + 1)) by (nonlinear_arith)
            requires
                from + steps == n * q + r,
                r + 1 == n,
        ;
        vstd::arithmetic::div_mod::lemma_mod_multiples_basic(q + 1, n);
    } else {
        assert(from + steps + 1 == q * n + (r + 1)) by (nonlinear_arith)
            requires
                from + steps == n * q + r,
        ;
        vstd::arithmetic::div_mod::lemma_fundamental_div_mod_converse(from + steps + 1, n, q, r + 1);
    }
}

/// Whether every row of the matrix is as long as the matrix has rows.
pub fn is_square_matrix(graph: &[Vec<u64>]) -> (ok: bool)
    ensures
        ok == is_square(graph@),
{
    let n = graph.len();
    let mut i: usize = 0;
    while i < n
        invariant
            i <= n,
            n == graph@.len(),
            forall|k: int| 0 <= k < i ==> (#[trigger] graph@[k]).len() == n,
        decreases n - i,
    {
        if graph[i].len() != n {
            return false;
        }
        i = i + 1;
    }
    true
}

/// Whether the matrix is square, symmetric and zero on its diagonal.
pub fn is_distance_matrix_of_cities(graph: &[Vec<u64>]) -> (ok: bool)
    ensures
        ok == is_distance_matrix(graph@),
{
    if !is_square_matrix(graph) {
        return false;
    }
    let n = graph.len();
    let mut i: usize = 0;
    while i < n
        invariant
            i <= n,
            n == graph@.len(),
            is_square(graph@),
            forall|a: int, b: int|
                0 <= a < i && 0 <= b < n ==> #[trigger] dist(graph@, a, b) == dist(graph@, b, a),
            forall|a: int| 0 <= a < i ==> #[trigger] dist(graph@, a, a) == 0,
        decreases n - i,
    {
        if graph[i][i] != 0 {
            assert(dist(graph@, i as int, i as int) != 0);
            return false;
        }
        let mut j: usize = 0;
        while j < n
            invariant
                i < n,
                j <= n,
                n == graph@.len(),
                is_square(graph@),
                forall|b: int|
                    0 <= b < j ==> #[trigger] dist(graph@, i as int, b) == dist(graph@, b, i as int),
            decreases n - j,
        {
            if graph[i][j] != graph[j][i] {
                assert(dist(graph@, i as int, j as int) != dist(graph@, j as int, i as int));
                return false;
            }
            j = j + 1;
        }
        i = i + 1;
    }
    true
}

/// Whether every entry of the sequence names a city below `n`.
pub fn names_cities_below(tour: &[usize], n: usize) -> (ok: bool)
    ensures
        ok == all_below(tour@, n as int),
{
    let mut i: usize = 0;
    while i < tour.len()
        invariant
            i <= tour@.len(),
            forall|k: int| 0 <= k < i ==> (#[trigger] tour@[k]) < n,
        decreases tour@.len() - i,
    {
        if tour[i] >= n {
            return false;
        }
        i = i + 1;
    }
    true
}

/// Whether the sequence visits each city of `[0, n)` exactly once.
pub fn is_valid_tour(tour: &[usize], n: usize) -> (ok: bool)
    ensures
        ok == is_tour(tour@, n as int),
{
    if tour.len() != n {
        return false;
    }
    let mut seen: Vec<bool> = Vec::new();
    let mut i: usize = 0;
    while i < n
        invariant
            i <= n,
            seen@.len() == i,
            forall|c: int| 0 <= c < i ==> !seen@[c],
        decreases n - i,
    {
        seen.push(false);
        i = i + 1;
    }
    i = 0;
    while i < n
        invariant
            i <= n,
            n == tour@.len(),
            seen@.len() == n,
            forall|k: int| 0 <= k < i ==> (#[trigger] tour@[k]) < n,
            forall|a: int, b: int| 0 <= a < b < i ==> tour@[a] != tour@[b],
            forall|c: int| 0 <= c < n ==> (seen@[c] <==> exists|k: int| 0 <= k < i && tour@[k] == c),
        decreases n - i,
    {
        let city = tour[i];
        if city >= n {
            return false;
        }
        if seen[city] {
            proof {
                let k = choose|k: int| 0 <= k < i && tour@[k] == city;
                assert(tour@[k] == tour@[i as int]);
            }
            return false;
        }
        let ghost before = seen@;
        seen.set(city, true);
        proof {
            assert forall|c: int| 0 <= c < n implies (seen@[c] <==> exists|k: int|
                0 <= k < i + 1 && tour@[k] == c) by {
                if c == city {
                    assert(tour@[i as int] == c);
                } else if before[c] {
                    let k = choose|k: int| 0 <= k < i && tour@[k] == c;
                    assert(0 <= k < i + 1 && tour@[k] == c);
                } else if exists|k: int| 0 <= k < i + 1 && tour@[k] == c {
                    let k = choose|k: int| 0 <= k < i + 1 && tour@[k] == c;
                    assert(k < i);
                }
            }
            assert forall|a: int, b: int| 0 <= a < b < i + 1 implies tour@[a] != tour@[b] by {
                if b == i && tour@[a] == tour@[b] {
                    assert(before[city as int]);
                }
            }
        }
        i = i + 1;
    }
    true
}

} // verus!
