//! A genetic algorithm: a population of tours evolves by fitness-
//! proportional selection, order crossover and swap mutation, and the best
//! tour of each generation is carried over unchanged.

use rand::rngs::ThreadRng;
use vstd::prelude::*;
use crate::random::{random_below, random_chance, random_position};
use crate::tour::{
    all_below, copy_tour, is_square, is_tour, lemma_covering_length,
    lemma_no_repeats_bounds_length, lemma_next_position, lemma_swap_is_tour,
    lemma_tour_visits_every_city, make_identity_tour, no_repeats, swap_cities,
};
use crate::utils::calculate_tour_length;

verus! {

/// The fitness of a tour of length one: fitness is this number divided by
/// the length.
pub const FITNESS_SCALE: u128 = 0x1_0000_0000_0000_0000;

/// The denominator of the mutation rate.
pub const RATE_SCALE: u32 = 1_000_000;

/// The fitness of a tour of length `length`: inversely proportional to
/// the length, with a tour of length zero as fit as one of length one.
pub fn fitness_of(length: u128) -> (fitness: u128)
    ensures
        fitness == FITNESS_SCALE as int / (if length == 0 { 1int } else { length as int }),
        fitness <= FITNESS_SCALE,
{
    let fitness = if length == 0 { FITNESS_SCALE } else { FITNESS_SCALE / length };
    proof {
        if length > 0 {
            vstd::arithmetic::div_mod::lemma_div_is_ordered_by_denominator(
                FITNESS_SCALE as int,
                1,
                length as int,
            );
        }
    }
    fitness
}

/// The sum of the first `count` entries.
pub open spec fn partial_sum(values: Seq<u128>, count: int) -> int
    decreases count,
{
    if count <= 0 {
        0
    } else {
        partial_sum(values, count - 1) + values[count - 1]
    }
}

/// The slot of the roulette wheel on which the ball `ball` comes to rest:
/// slot `i` spans the numbers from the sum of the fitnesses before it up
/// to, not including, the sum with its own. A ball beyond the wheel rests
/// on the last slot.
pub fn roulette_pick(fitnesses: &[u128], ball: u128) -> (slot: usize)
    requires
        fitnesses@.len() > 0,
    ensures
        slot < fitnesses@.len(),
        partial_sum(fitnesses@, slot as int) <= ball,
        ball < partial_sum(fitnesses@, slot + 1) || (slot == fitnesses@.len() - 1),
{
    let mut rest = ball;
    let mut i: usize = 0;
    while i < fitnesses.len() - 1
        invariant
            i <= fitnesses@.len() - 1,
            rest + partial_sum(fitnesses@, i as int) == ball,
        decreases fitnesses@.len() - i,
    {
        if rest < fitnesses[i] {
            return i;
        }
        rest = rest - fitnesses[i];
        i = i + 1;
    }
    i
}

/// The entries of `cities` that do not occur in `used`, in their order.
pub open spec fn keep_unused(cities: Seq<usize>, used: Seq<usize>) -> Seq<usize>
    decreases cities.len(),
{
    if cities.len() == 0 {
        cities
    } else if used.contains(cities.last()) {
        keep_unused(cities.drop_last(), used)
    } else {
        keep_unused(cities.drop_last(), used).push(cities.last())
    }
}

/// The tour read as a cycle from position `from` on, once around.
pub open spec fn cycle_from(tour: Seq<usize>, from: int) -> Seq<usize> {
    tour.subrange(from, tour.len() as int) + tour.subrange(0, from)
}

/// `child` is the order crossover of the two parents for the segment from
/// `start` to `end`: it has the segment of the first parent in place, and
/// in the positions behind the segment, once around, the other cities in
/// the order in which the second parent has them from behind the segment on.
pub open spec fn is_order_crossover(
    child: Seq<usize>,
    parent1: Seq<usize>,
    parent2: Seq<usize>,
    start: int,
    end: int,
) -> bool {
    let n = parent1.len() as int;
    let behind = (end + 1) % n;
    let others = keep_unused(cycle_from(parent2, behind), parent1.subrange(start, end + 1));
    &&& child.len() == n
    &&& forall|k: int| start <= k <= end ==> child[k] == parent1[k]
    &&& others.len() == n - (end + 1 - start)
    &&& forall|t: int| 0 <= t < others.len() ==> child[(behind + t) % n] == others[t]
}

/// Every entry of `keep_unused` comes from `cities` and is not in `used`;
/// every entry of `cities` that is not in `used` is kept.
proof fn lemma_keep_unused(cities: Seq<usize>, used: Seq<usize>)
    ensures
        forall|t: int|
            0 <= t < keep_unused(cities, used).len() ==> cities.contains(
                #[trigger] keep_unused(cities, used)[t],
            ) && !used.contains(keep_unused(cities, used)[t]),
        forall|k: int|
            0 <= k < cities.len() && !used.contains(#[trigger] cities[k]) ==> keep_unused(
                cities,
                used,
            ).contains(cities[k]),
        no_repeats(cities) ==> no_repeats(keep_unused(cities, used)),
    decreases cities.len(),
{
    if cities.len() > 0 {
        let front = cities.drop_last();
        let last = cities.last();
        lemma_keep_unused(front, used);
        let kept_front = keep_unused(front, used);
        let kept = keep_unused(cities, used);
        assert forall|t: int| 0 <= t < kept.len() implies cities.contains(#[trigger] kept[t])
            && !used.contains(kept[t]) by {
            if t < kept_front.len() {
                assert(kept[t] == kept_front[t]);
                let k = choose|k: int| 0 <= k < front.len() && front[k] == kept_front[t];
                assert(cities[k] == kept[t]);
            } else {
                assert(cities[cities.len() - 1] == kept[t]);
            }
        }
        assert forall|k: int| 0 <= k < cities.len() && !used.contains(
            #[trigger] cities[k],
        ) implies kept.contains(cities[k]) by {
            if k < front.len() {
                assert(front[k] == cities[k]);
                let t = choose|t: int| 0 <= t < kept_front.len() && kept_front[t] == front[k];
                assert(kept[t] == cities[k]);
            } else {
                assert(kept[kept.len() - 1] == cities[k]);
            }
        }
        if no_repeats(cities) {
            assert(no_repeats(front)) by {
                assert forall|a: int, b: int| 0 <= a < b < front.len() implies front[a]
                    != front[b] by {
                    assert(cities[a] != cities[b]);
                }
            }
            assert forall|a: int, b: int| 0 <= a < b < kept.len() implies kept[a] != kept[b] by {
                if b == kept_front.len() {
                    let k = choose|k: int| 0 <= k < front.len() && front[k] == kept_front[a];
                    assert(cities[k] != cities[cities.len() - 1]);
                }
            }
        }
    }
}

/// Order crossover: copies the segment from `start` to `end` of the first
/// parent and fills the other positions, from behind the segment once
/// around, with the remaining cities in the order of the second parent.
pub fn order_crossover(parent1: &[usize], parent2: &[usize], start: usize, end: usize) -> (child:
    Vec<usize>)
    requires
        is_tour(parent1@, parent1@.len() as int),
        is_tour(parent2@, parent1@.len() as int),
        start <= end < parent1@.len(),
    ensures
        is_tour(child@, parent1@.len() as int),
        is_order_crossover(child@, parent1@, parent2@, start as int, end as int),
{
    let n = parent1.len();
    let mut child: Vec<usize> = Vec::new();
    let mut used: Vec<bool> = Vec::new();
    let mut i: usize = 0;
    while i < n
        invariant
            i <= n,
            child@.len() == i,
            used@.len() == i,
            forall|k: int| 0 <= k < i ==> !used@[k],
        decreases n - i,
    {
        child.push(usize::MAX);
        used.push(false);
        i = i + 1;
    }
    let ghost segment = parent1@.subrange(start as int, end + 1);
    // Copy the segment of the first parent.
    i = start;
    while i <= end
        invariant
            start <= i <= end + 1,
            end < n,
            n == parent1@.len(),
            child@.len() == n,
            used@.len() == n,
            is_tour(parent1@, n as int),
            forall|k: int| start <= k < i ==> child@[k] == parent1@[k],
            forall|c: usize| c < n ==> (used@[c as int] <==> parent1@.subrange(
                start as int,
                i as int,
            ).contains(c)),
        decreases end + 1 - i,
    {
        let city = parent1[i];
        child.set(i, city);
        used.set(city, true);
        proof {
            let grown = parent1@.subrange(start as int, i + 1);
            let before = parent1@.subrange(start as int, i as int);
            assert(grown =~= before.push(city));
            assert forall|c: usize| c < n implies (used@[c as int] <==> grown.contains(c)) by {
                if c == city {
                    assert(grown[before.len() as int] == c);
                } else if before.contains(c) {
                    let k = choose|k: int| 0 <= k < before.len() && before[k] == c;
                    assert(grown[k] == c);
                } else if grown.contains(c) {
                    let k = choose|k: int| 0 <= k < grown.len() && grown[k] == c;
                    assert(before[k] == c);
                }
            }
        }
        i = i + 1;
    }
    // Fill the rest in the order of the second parent.
    let behind = if end + 1 == n { 0 } else { end + 1 };
    proof {
        if end + 1 == n {
            vstd::arithmetic::div_mod::lemma_mod_self_0(n as int);
        } else {
            vstd::arithmetic::div_mod::lemma_small_mod((end + 1) as nat, n as nat);
        }
        assert(segment.len() == end + 1 - start);
        assert(no_repeats(segment)) by {
            assert forall|a: int, b: int| 0 <= a < b < segment.len() implies segment[a]
                != segment[b] by {
                assert(parent1@[start + a] != parent1@[start + b]);
            }
        }
    }
    let ghost around = cycle_from(parent2@, behind as int);
    proof {
        crate::tour::lemma_rotate_is_tour(parent2@, behind as int, n as int);
    }
    let mut idx = behind;
    let mut placed: usize = 0;
    let mut from = behind;
    i = 0;
    while i < n
        invariant
            i <= n,
            start <= end < n,
            n == parent1@.len(),
            n == parent2@.len(),
            child@.len() == n,
            used@.len() == n,
            behind == (end + 1) % (n as int),
            behind < n,
            segment == parent1@.subrange(start as int, end + 1),
            no_repeats(segment),
            around == cycle_from(parent2@, behind as int),
            is_tour(around, n as int),
            is_tour(parent1@, n as int),
            from < n,
            from == (behind + i) % (n as int),
            i < n ==> around[i as int] == parent2@[from as int],
            placed == keep_unused(around.take(i as int), segment).len(),
            placed <= n - (end + 1 - start),
            idx < n,
            idx == (behind + placed) % (n as int),
            forall|k: int| start <= k <= end ==> child@[k] == parent1@[k],
            forall|t: int|
                0 <= t < placed ==> child@[(behind + t) % (n as int)] == keep_unused(
                    around.take(i as int),
                    segment,
                )[t],
            forall|c: usize|
                c < n ==> (used@[c as int] <==> segment.contains(c) || keep_unused(
                    around.take(i as int),
                    segment,
                ).contains(c)),
        decreases n - i,
    {
        let city = parent2[from];
        let ghost seen = around.take(i as int);
        let ghost kept = keep_unused(seen, segment);
        proof {
            assert(around.take(i + 1).drop_last() =~= seen);
            assert(around.take(i + 1).last() == city);
            lemma_keep_unused(seen, segment);
            assert(no_repeats(seen)) by {
                assert forall|a: int, b: int| 0 <= a < b < seen.len() implies seen[a] != seen[b] by {
                    assert(around[a] != around[b]);
                }
            }
            assert(city < n);
            if kept.contains(city) {
                let t = choose|t: int| 0 <= t < kept.len() && kept[t] == city;
                assert(seen.contains(kept[t]));
                let k = choose|k: int| 0 <= k < seen.len() && seen[k] == city;
                assert(around[k] != around[i as int]);
            }
        }
        if !used[city] {
            proof {
                // The segment and the cities placed so far are all different
                // and differ from this one, so there is room for it.
                let all = (segment + kept).push(city);
                assert forall|a: int, b: int| 0 <= a < b < all.len() implies all[a] != all[b] by {
                    if b < segment.len() {
                    } else if b < segment.len() + kept.len() {
                        if a < segment.len() {
                            assert(segment.contains(all[a]));
                            assert(all[b] == kept[b - segment.len()]);
                        } else {
                            assert(all[a] == kept[a - segment.len()]);
                            assert(all[b] == kept[b - segment.len()]);
                        }
                    } else {
                        if a < segment.len() {
                            assert(segment.contains(all[a]));
                        } else {
                            assert(all[a] == kept[a - segment.len()]);
                            assert(kept.contains(all[a]));
                        }
                    }
                }
                assert forall|k: int| 0 <= k < all.len() implies (#[trigger] all[k]) < n by {
                    if k < segment.len() {
                        assert(all[k] == parent1@[start + k]);
                    } else if k < segment.len() + kept.len() {
                        assert(all[k] == kept[k - segment.len()]);
                        assert(seen.contains(kept[k - segment.len()]));
                        let o = choose|o: int| 0 <= o < seen.len() && seen[o] == all[k];
                        assert(around[o] == all[k]);
                    }
                }
                lemma_no_repeats_bounds_length(all, n as int);
                lemma_position_outside_segment(
                    start as int,
                    end as int,
                    n as int,
                    placed as int,
                );
            }
            let ghost before = child@;
            child.set(idx, city);
            used.set(city, true);
            proof {
                let grown = keep_unused(around.take(i + 1), segment);
                assert(grown == kept.push(city));
                assert forall|t: int| 0 <= t < placed + 1 implies child@[(behind + t) % (
                n as int)] == grown[t] by {
                    if t < placed {
                        lemma_positions_differ(behind as int, t, placed as int, n as int);
                        assert(before[(behind + t) % (n as int)] == kept[t]);
                    }
                }
                assert forall|k: int| start <= k <= end implies child@[k] == parent1@[k] by {
                    assert(before[k] == parent1@[k]);
                }
                assert forall|c: usize| c < n implies (used@[c as int] <==> segment.contains(c)
                    || grown.contains(c)) by {
                    if c == city {
                        assert(grown[kept.len() as int] == c);
                    } else if kept.contains(c) {
                        let t = choose|t: int| 0 <= t < kept.len() && kept[t] == c;
                        assert(grown[t] == c);
                    } else if grown.contains(c) {
                        let t = choose|t: int| 0 <= t < grown.len() && grown[t] == c;
                        assert(kept[t] == c);
                    }
                }
                lemma_next_position(behind as int, placed as int, n as int);
            }
            idx = if idx + 1 == n { 0 } else { idx + 1 };
            placed = placed + 1;
        } else {
            proof {
                assert(segment.contains(city));
                assert(keep_unused(around.take(i + 1), segment) == kept);
            }
        }
        proof {
            lemma_next_position(behind as int, i as int, n as int);
            if i + 1 < n {
                let next_from = if from + 1 == n { 0 } else { from + 1 };
                lemma_cycle_from_index(parent2@, behind as int, i + 1);
            }
        }
        from = if from + 1 == n { 0 } else { from + 1 };
        i = i + 1;
    }
    proof {
        assert(around.take(n as int) =~= around);
        let kept = keep_unused(around, segment);
        lemma_keep_unused(around, segment);
        // Every city is in the segment or among those placed, so the child is full.
        let all = segment + kept;
        assert forall|c: usize| c < n implies all.contains(c) by {
            if segment.contains(c) {
                let k = choose|k: int| 0 <= k < segment.len() && segment[k] == c;
                assert(all[k] == c);
            } else {
                lemma_tour_visits_every_city(around, n as int, c);
                let o = choose|o: int| 0 <= o < n && around[o] == c;
                assert(kept.contains(around[o]));
                let t = choose|t: int| 0 <= t < kept.len() && kept[t] == c;
                assert(all[segment.len() + t] == c);
            }
        }
        lemma_covering_length(all, n as int);
        assert(placed == n - (end + 1 - start));
        lemma_crossover_is_tour(child@, segment, kept, start as int, end as int, n as int);
    }
    child
}

/// Two positions fewer than `n` steps apart behind `from` differ.
proof fn lemma_positions_differ(from: int, a: int, b: int, n: int)
    requires
        0 <= from < n,
        0 <= a < b < n,
    ensures
        (from + a) % n != (from + b) % n,
{
    vstd::arithmetic::div_mod::lemma_fundamental_div_mod(from + a, n);
    vstd::arithmetic::div_mod::lemma_fundamental_div_mod(from + b, n);
    let qa = (from + a) / n;
    let qb = (from + b) / n;
    if (from + a) % n == (from + b) % n {
        assert(b - a == n * (qb - qa)) by (nonlinear_arith)
            requires
                from + a == n * qa + (from + a) % n,
                from + b == n * qb + (from + b) % n,
                (from + a) % n == (from + b) % n,
        ;
        assert(false) by (nonlinear_arith)
            requires
                b - a == n * (qb - qa),
                0 < b - a < n,
        ;
    }
}

/// The position `steps` behind the end of the segment lies outside the
/// segment, as long as fewer positions were taken than lie outside it.
proof fn lemma_position_outside_segment(start: int, end: int, n: int, steps: int)
    requires
        0 <= start <= end < n,
        0 <= steps < n - (end + 1 - start),
    ensures
        !(start <= ((end + 1) % n + steps) % n <= end),
{
    let behind = (end + 1) % n;
    if end + 1 == n {
        vstd::arithmetic::div_mod::lemma_mod_self_0(n);
        vstd::arithmetic::div_mod::lemma_small_mod(steps as nat, n as nat);
    } else {
        vstd::arithmetic::div_mod::lemma_small_mod((end + 1) as nat, n as nat);
        if end + 1 + steps < n {
            vstd::arithmetic::div_mod::lemma_small_mod((end + 1 + steps) as nat, n as nat);
        } else {
            vstd::arithmetic::div_mod::lemma_fundamental_div_mod_converse(
                end + 1 + steps,
                n,
                1,
                end + 1 + steps - n,
            );
        }
    }
}

/// The entry `k` of a tour read from `from` on is the entry `k` positions
/// behind `from`.
proof fn lemma_cycle_from_index(tour: Seq<usize>, from: int, k: int)
    requires
        0 <= from < tour.len(),
        0 <= k < tour.len(),
    ensures
        cycle_from(tour, from)[k] == tour[(from + k) % (tour.len() as int)],
{
    let n = tour.len() as int;
    if from + k < n {
        vstd::arithmetic::div_mod::lemma_small_mod((from + k) as nat, n as nat);
    } else {
        vstd::arithmetic::div_mod::lemma_fundamental_div_mod_converse(from + k, n, 1, from + k - n);
    }
}

/// The number of steps from behind the segment to the position `k`
/// outside it.
spec fn steps_behind(k: int, end: int, n: int) -> int {
    if k > end {
        k - (end + 1)
    } else {
        n - (end + 1) + k
    }
}

/// Where the city at position `k` of the child stands in the segment
/// followed by the other cities.
spec fn source_of(k: int, start: int, end: int, n: int) -> int {
    if start <= k <= end {
        k - start
    } else {
        (end + 1 - start) + steps_behind(k, end, n)
    }
}

/// A child that holds the segment in place and the other cities behind it
/// is a tour.
proof fn lemma_crossover_is_tour(
    child: Seq<usize>,
    segment: Seq<usize>,
    kept: Seq<usize>,
    start: int,
    end: int,
    n: int,
)
    requires
        0 <= start <= end < n,
        child.len() == n,
        segment.len() == end + 1 - start,
        kept.len() == n - segment.len(),
        forall|k: int| start <= k <= end ==> child[k] == segment[k - start],
        forall|t: int| 0 <= t < kept.len() ==> child[((end + 1) % n + t) % n] == kept[t],
        no_repeats(segment),
        no_repeats(kept),
        all_below(segment, n),
        all_below(kept, n),
        forall|t: int| 0 <= t < kept.len() ==> !segment.contains(#[trigger] kept[t]),
    ensures
        is_tour(child, n),
{
    let behind = (end + 1) % n;
    vstd::arithmetic::div_mod::lemma_mod_bound(end + 1, n);
    // Every position is either in the segment or some steps behind it.
    assert forall|k: int| 0 <= k < n && !(start <= k <= end) implies 0 <= #[trigger] steps_behind(
        k,
        end,
        n,
    ) < kept.len() && (behind + steps_behind(k, end, n)) % n == k by {
        if k > end {
            vstd::arithmetic::div_mod::lemma_small_mod((end + 1) as nat, n as nat);
            vstd::arithmetic::div_mod::lemma_small_mod(k as nat, n as nat);
        } else if end + 1 == n {
            vstd::arithmetic::div_mod::lemma_mod_self_0(n);
            vstd::arithmetic::div_mod::lemma_small_mod(k as nat, n as nat);
        } else {
            vstd::arithmetic::div_mod::lemma_small_mod((end + 1) as nat, n as nat);
            vstd::arithmetic::div_mod::lemma_fundamental_div_mod_converse(
                behind + steps_behind(k, end, n),
                n,
                1,
                k,
            );
        }
    }
    let all = segment + kept;
    assert forall|k: int| 0 <= k < n implies 0 <= #[trigger] source_of(k, start, end, n) < n
        && child[k] == all[source_of(k, start, end, n)] by {
        if !(start <= k <= end) {
            let t = steps_behind(k, end, n);
            assert(0 <= t < kept.len() && (behind + t) % n == k);
            assert(child[(behind + t) % n] == kept[t]);
        }
    }
    assert forall|k: int| 0 <= k < n implies (#[trigger] child[k]) < n by {
        let sk = source_of(k, start, end, n);
        assert(child[k] == all[sk]);
        if sk < segment.len() {
            assert(all[sk] == segment[sk]);
        } else {
            assert(all[sk] == kept[sk - segment.len()]);
        }
    }
    assert forall|a: int, b: int| 0 <= a < b < n implies child[a] != child[b] by {
        let sa = source_of(a, start, end, n);
        let sb = source_of(b, start, end, n);
        assert(child[a] == all[sa]);
        assert(child[b] == all[sb]);
        assert(sa != sb) by {
            if !(start <= a <= end) && !(start <= b <= end) {
                assert((behind + steps_behind(a, end, n)) % n == a);
                assert((behind + steps_behind(b, end, n)) % n == b);
            }
        }
        if sa < segment.len() && sb < segment.len() {
            if sa < sb {
                assert(segment[sa] != segment[sb]);
            } else {
                assert(segment[sb] != segment[sa]);
            }
        } else if sa >= segment.len() && sb >= segment.len() {
            let ta = sa - segment.len();
            let tb = sb - segment.len();
            if ta < tb {
                assert(kept[ta] != kept[tb]);
            } else {
                assert(kept[tb] != kept[ta]);
            }
        } else if sa < segment.len() {
            assert(segment.contains(segment[sa]));
            assert(!segment.contains(kept[sb - segment.len()]));
        } else {
            assert(segment.contains(segment[sb]));
            assert(!segment.contains(kept[sa - segment.len()]));
        }
    }
}

/// A tour of the cities `[0, n)` in random order, by a Fisher-Yates shuffle.
fn random_tour(n: usize, rng: &mut ThreadRng) -> (tour: Vec<usize>)
    ensures
        is_tour(tour@, n as int),
{
    let mut tour = make_identity_tour(n);
    let mut i = n;
    while i > 1
        invariant
            i <= n,
            is_tour(tour@, n as int),
        decreases i,
    {
        i = i - 1;
        let j = random_position(rng, i + 1);
        proof {
            lemma_swap_is_tour(tour@, i as int, j as int, n as int);
        }
        swap_cities(&mut tour, i, j);
    }
    tour
}

/// Order crossover of the two parents for a random segment.
fn crossover(parent1: &[usize], parent2: &[usize], rng: &mut ThreadRng) -> (child: Vec<usize>)
    requires
        parent1@.len() >= 1,
        is_tour(parent1@, parent1@.len() as int),
        is_tour(parent2@, parent1@.len() as int),
    ensures
        is_tour(child@, parent1@.len() as int),
        exists|start: int, end: int|
            0 <= start <= end < parent1@.len() && #[trigger] is_order_crossover(
                child@,
                parent1@,
                parent2@,
                start,
                end,
            ),
{
    let n = parent1.len();
    let start = random_position(rng, n);
    let end = start + random_position(rng, n - start);
    let child = order_crossover(parent1, parent2, start, end);
    proof {
        assert(is_order_crossover(child@, parent1@, parent2@, start as int, end as int));
    }
    child
}

/// A copy of `tour` with the cities at two random positions exchanged.
fn mutate(tour: &[usize], rng: &mut ThreadRng) -> (mutant: Vec<usize>)
    requires
        tour@.len() >= 1,
    ensures
        exists|i: int, j: int|
            0 <= i < tour@.len() && 0 <= j < tour@.len() && mutant@ == #[trigger] tour@.update(
                i,
                tour@[j],
            ).update(j, tour@[i]),
{
    let mut new_tour = copy_tour(tour);
    let n = tour.len();
    let i = random_position(rng, n);
    let j = random_position(rng, n);
    swap_cities(&mut new_tour, i, j);
    proof {
        assert(new_tour@ == tour@.update(i as int, tour@[j as int]).update(j as int, tour@[i as int]));
    }
    new_tour
}

/// Spins the roulette wheel: a slot chosen with probability proportional
/// to its fitness. On a wheel without any fitness the last slot is chosen.
///
/// The ball is drawn below `total`, or is zero if `total` is zero; the
/// slot is the one on which that ball rests.
fn select(fitnesses: &[u128], total: u128, rng: &mut ThreadRng) -> (slot: usize)
    requires
        fitnesses@.len() > 0,
    ensures
        slot < fitnesses@.len(),
        exists|ball: u128|
            (if total > 0 { ball < total } else { ball == 0 }) && #[trigger] rests_on(
                fitnesses@,
                ball,
                slot,
            ),
{
    let ball = if total > 0 { random_below(rng, total) } else { 0 };
    let slot = roulette_pick(fitnesses, ball);
    proof {
        assert(rests_on(fitnesses@, ball, slot));
    }
    slot
}

/// The ball `ball` rests on the slot `slot` of the wheel: the fitnesses
/// before the slot sum to at most the ball, and those up to and including
/// it to more, unless the slot is the last, where a ball beyond the wheel
/// rests too.
pub open spec fn rests_on(fitnesses: Seq<u128>, ball: u128, slot: usize) -> bool {
    &&& slot < fitnesses.len()
    &&& partial_sum(fitnesses, slot as int) <= ball
    &&& ball < partial_sum(fitnesses, slot + 1) || slot == fitnesses.len() - 1
}

/// Every member of the population is a tour of `n` cities.
pub open spec fn is_population(population: Seq<Vec<usize>>, n: int) -> bool {
    forall|k: int| 0 <= k < population.len() ==> is_tour(#[trigger] population[k]@, n)
}

/// The position of a shortest tour in the population; of the last one, if
/// several are shortest.
fn fittest(lengths: &[u128]) -> (best: usize)
    requires
        lengths@.len() > 0,
    ensures
        best < lengths@.len(),
        forall|k: int| 0 <= k < lengths@.len() ==> lengths@[best as int] <= lengths@[k],
        forall|k: int| best < k < lengths@.len() ==> lengths@[best as int] < lengths@[k],
{
    let mut best: usize = 0;
    let mut i: usize = 1;
    while i < lengths.len()
        invariant
            1 <= i <= lengths@.len(),
            best < i,
            forall|k: int| 0 <= k < i ==> lengths@[best as int] <= lengths@[k],
            forall|k: int| best < k < i ==> lengths@[best as int] < lengths@[k],
        decreases lengths@.len() - i,
    {
        if lengths[i] <= lengths[best] {
            best = i;
        }
        i = i + 1;
    }
    best
}

/// Searches for a short tour of the cities `[0, n)` by evolving a
/// population of `population_size` random tours over `generations`
/// generations. `mutation_rate` is the chance, in millionths, that a child
/// is mutated; a rate above one million counts as one million.
///
/// Whatever the random draws, the result is a tour.
pub fn optimize(
    graph: &[Vec<u64>],
    n: usize,
    population_size: usize,
    generations: usize,
    mutation_rate: u32,
) -> (best: Vec<usize>)
    requires
        is_square(graph@),
        n <= graph@.len(),
        population_size >= 1,
    ensures
        is_tour(best@, n as int),
{
    if n == 0 {
        return Vec::new();
    }
    let rate = if mutation_rate > RATE_SCALE { RATE_SCALE } else { mutation_rate };
    let mut rng: ThreadRng = rand::thread_rng();
    let mut population: Vec<Vec<usize>> = Vec::new();
    while population.len() < population_size
        invariant
            population@.len() <= population_size,
            is_population(population@, n as int),
        decreases population_size - population@.len(),
    {
        let tour = random_tour(n, &mut rng);
        population.push(tour);
    }
    let mut generation: usize = 0;
    while generation < generations
        invariant
            n >= 1,
            n <= graph@.len(),
            is_square(graph@),
            population_size >= 1,
            population@.len() == population_size,
            is_population(population@, n as int),
            rate <= RATE_SCALE,
        decreases generations - generation,
    {
        // Fitness: the inverse of the length.
        let mut lengths: Vec<u128> = Vec::new();
        let mut fitnesses: Vec<u128> = Vec::new();
        let mut total: u128 = 0;
        let mut k: usize = 0;
        while k < population_size
            invariant
                k <= population_size,
                n <= graph@.len(),
                is_square(graph@),
                population@.len() == population_size,
                is_population(population@, n as int),
                lengths@.len() == k,
                fitnesses@.len() == k,
                total <= k * FITNESS_SCALE,
            decreases population_size - k,
        {
            proof {
                assert(is_tour(population@[k as int]@, n as int));
                assert((k + 1) * FITNESS_SCALE <= u128::MAX) by (nonlinear_arith)
                    requires
                        k + 1 <= usize::MAX,
                        FITNESS_SCALE == 0x1_0000_0000_0000_0000,
                        usize::MAX <= 0xffff_ffff_ffff_ffff,
                ;
                assert((k + 1) * FITNESS_SCALE == k * FITNESS_SCALE + FITNESS_SCALE)
                    by (nonlinear_arith);
            }
            let length = calculate_tour_length(population[k].as_slice(), graph);
            let fitness = fitness_of(length);
            lengths.push(length);
            fitnesses.push(fitness);
            total = total + fitness;
            k = k + 1;
        }
        // Elitism: the best tour lives on unchanged.
        let elite = fittest(lengths.as_slice());
        let mut new_population: Vec<Vec<usize>> = Vec::new();
        new_population.push(copy_tour(population[elite].as_slice()));
        while new_population.len() < population_size
            invariant
                n >= 1,
                1 <= new_population@.len() <= population_size,
                population@.len() == population_size,
                fitnesses@.len() == population_size,
                is_population(population@, n as int),
                is_population(new_population@, n as int),
                rate <= RATE_SCALE,
            decreases population_size - new_population@.len(),
        {
            let first = select(fitnesses.as_slice(), total, &mut rng);
            let second = select(fitnesses.as_slice(), total, &mut rng);
            proof {
                assert(is_tour(population@[first as int]@, n as int));
                assert(is_tour(population@[second as int]@, n as int));
            }
            let mut child = crossover(
                population[first].as_slice(),
                population[second].as_slice(),
                &mut rng,
            );
            if random_chance(&mut rng, rate, RATE_SCALE) {
                let ghost before = child@;
                child = mutate(child.as_slice(), &mut rng);
                proof {
                    let (i, j) = choose|i: int, j: int|
                        0 <= i < before.len() && 0 <= j < before.len() && child@
                            == #[trigger] before.update(i, before[j]).update(j, before[i]);
                    lemma_swap_is_tour(before, i, j, n as int);
                }
            }
            new_population.push(child);
        }
        population = new_population;
        generation = generation + 1;
    }
    // The best tour of the final population, the first among equals.
    proof {
        assert(is_tour(population@[0]@, n as int));
    }
    let mut best_tour = copy_tour(population[0].as_slice());
    let mut best_length = calculate_tour_length(best_tour.as_slice(), graph);
    let mut k: usize = 1;
    while k < population_size
        invariant
            1 <= k,
            n <= graph@.len(),
            is_square(graph@),
            population@.len() == population_size,
            is_population(population@, n as int),
            is_tour(best_tour@, n as int),
        decreases population_size - k,
    {
        proof {
            assert(is_tour(population@[k as int]@, n as int));
        }
        let length = calculate_tour_length(population[k].as_slice(), graph);
        if length < best_length {
            best_tour = copy_tour(population[k].as_slice());
            best_length = length;
        }
        k = k + 1;
    }
    best_tour
}

} // verus!
