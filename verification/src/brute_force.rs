//! The exact solvers: exhaustive search over permutations for small
//! instances, subset dynamic programming for medium ones, and the rule
//! that chooses between them.

use vstd::prelude::*;
use crate::subset_dp::{comes_no_later, is_path_to, is_state, reads_backward_as, DpTable};
use crate::tour::{
    copy_tour, from_city_zero, identity_tour, is_shortest_tour_length, is_square, is_symmetric,
    is_tour, lemma_from_city_zero, lemma_last_city_forced, lemma_reverse_is_tour,
    lemma_swap_is_tour, lemma_tour_length_reverse, lemma_tour_visits_every_city,
    make_identity_tour, path_length, swap_cities, tour_length,
};
use crate::utils::calculate_tour_length;
use crate::bitmask::{
    full_mask, lemma_card_limit, lemma_full_mask, agree_below, card, has_city, is_subset_of_size,
    lemma_card_agree, lemma_card_no_more, lemma_card_stops, lemma_card_toggle, lemma_empty_mask,
    lemma_masks_equal, lemma_toggle, lemma_toggle_valid, lemma_valid_mask_bound,
    lemma_valid_mask_members, valid_mask,
};

verus! {

/// The largest number of cities for which an exact solution is attempted.
pub fn get_max_feasible_n() -> (n: usize)
    ensures
        n == 20,
{
    20
}

/// `mask` is one of the sets that extend `current` by cities from `start`
/// on to a set of `size` cities of `[1, n)`.
pub open spec fn extends_to_size(mask: usize, current: usize, start: usize, n: usize, size: usize) -> bool {
    &&& is_subset_of_size(mask, n, size)
    &&& agree_below(mask, current, start)
}

/// The lowest city in which `mask` differs from `current` is `city`, and
/// `mask` has it.
pub open spec fn departs_at(mask: usize, current: usize, city: usize) -> bool {
    has_city(mask, city) && !has_city(current, city) && agree_below(mask, current, city)
}

/// The lowest city in which `mask` differs from `current` lies in
/// `[start, end)`, and `mask` has it.
pub open spec fn departs_within(mask: usize, current: usize, start: usize, end: usize) -> bool {
    exists|j: usize| start <= j < end && #[trigger] departs_at(mask, current, j)
}

/// The order in which sets are listed: of two sets, the one that has the
/// lowest city in which they differ comes first.
pub open spec fn comes_first(first: usize, second: usize) -> bool {
    exists|city: usize| city < 20 && #[trigger] departs_at(first, second, city)
}

/// The sets are listed in order, so none is listed twice.
pub open spec fn in_listing_order(subsets: Seq<usize>) -> bool {
    forall|a: int, b: int| 0 <= a < b < subsets.len() ==> comes_first(subsets[a], subsets[b])
}

/// Appends to `subsets` every set of `size` cities of `[1, n)` that
/// extends `current`, a set of `count` cities below `start`, by cities
/// from `start` on.
fn extend_subsets(
    start: usize,
    current: usize,
    count: usize,
    size: usize,
    n: usize,
    subsets: &mut Vec<usize>,
)
    requires
        1 <= start,
        n <= 20,
        valid_mask(current, n),
        forall|j: usize| start <= j < 20 ==> !has_city(current, j),
        card(current, n as nat) == count,
        count <= size,
    ensures
        final(subsets)@.len() >= old(subsets)@.len(),
        final(subsets)@.subrange(0, old(subsets)@.len() as int) == old(subsets)@,
        forall|k: int|
            old(subsets)@.len() <= k < final(subsets)@.len() ==> extends_to_size(
                #[trigger] final(subsets)@[k],
                current,
                start,
                n,
                size,
            ),
        forall|mask: usize| #[trigger]
            extends_to_size(mask, current, start, n, size) ==> exists|k: int|
                old(subsets)@.len() <= k < final(subsets)@.len() && final(subsets)@[k] == mask,
        forall|a: int, b: int|
            old(subsets)@.len() <= a < b < final(subsets)@.len() ==> comes_first(
                final(subsets)@[a],
                final(subsets)@[b],
            ),
    decreases n - start,
{
    let ghost before = subsets@;
    if count == size {
        subsets.push(current);
        proof {
            assert(subsets@.subrange(0, before.len() as int) =~= before);
            assert forall|mask: usize| #[trigger]
                extends_to_size(mask, current, start, n, size) implies exists|k: int|
                before.len() <= k < subsets@.len() && subsets@[k] == mask by {
                lemma_only_extension(mask, current, start, n);
                assert(subsets@[before.len() as int] == mask);
            }
        }
        return ;
    }
    let mut i = start;
    while i < n
        invariant
            1 <= start <= i,
            n <= 20,
            valid_mask(current, n),
            forall|j: usize| start <= j < 20 ==> !has_city(current, j),
            card(current, n as nat) == count,
            count < size,
            subsets@.len() >= before.len(),
            subsets@.subrange(0, before.len() as int) == before,
            forall|k: int|
                before.len() <= k < subsets@.len() ==> extends_to_size(
                    #[trigger] subsets@[k],
                    current,
                    start,
                    n,
                    size,
                ),
            forall|mask: usize| #[trigger]
                extends_to_size(mask, current, start, n, size) && !agree_below(mask, current, i)
                    ==> exists|k: int|
                    before.len() <= k < subsets@.len() && subsets@[k] == mask,
            forall|a: int, b: int|
                before.len() <= a < b < subsets@.len() ==> comes_first(subsets@[a], subsets@[b]),
            forall|k: int|
                before.len() <= k < subsets@.len() ==> departs_within(
                    #[trigger] subsets@[k],
                    current,
                    start,
                    i,
                ),
        decreases n - i,
    {
        let ghost during = subsets@;
        let grown = current | (1usize << i);
        proof {
            lemma_toggle_valid(current, i, n);
            assert forall|j: usize| j < 20 implies has_city(grown, j) == (has_city(current, j) || j
                == i) by {
                lemma_toggle(current, i, j);
            }
            lemma_card_toggle(grown, current, i, n);
        }
        extend_subsets(i + 1, grown, count + 1, size, n, subsets);
        proof {
            assert(subsets@.subrange(0, before.len() as int) =~= during.subrange(
                0,
                before.len() as int,
            ));
            assert forall|k: int| before.len() <= k < subsets@.len() implies extends_to_size(
                #[trigger] subsets@[k],
                current,
                start,
                n,
                size,
            ) by {
                if k < during.len() {
                    assert(subsets@[k] == subsets@.subrange(0, during.len() as int)[k]);
                } else {
                    let m = subsets@[k];
                    assert(extends_to_size(m, grown, (i + 1) as usize, n, size));
                    assert forall|j: usize| j < start implies has_city(m, j) == has_city(
                        current,
                        j,
                    ) by {
                        assert(has_city(m, j) == has_city(grown, j));
                    }
                }
            }
            assert forall|mask: usize| #[trigger]
                extends_to_size(mask, current, start, n, size) && !agree_below(
                    mask,
                    current,
                    (i + 1) as usize,
                ) implies exists|k: int|
                before.len() <= k < subsets@.len() && subsets@[k] == mask by {
                if !agree_below(mask, current, i) {
                    let k = choose|k: int| before.len() <= k < during.len() && during[k] == mask;
                    assert(subsets@[k] == subsets@.subrange(0, during.len() as int)[k]);
                } else {
                    // The first city in which `mask` leaves `current` is `i`.
                    assert(has_city(mask, i) != has_city(current, i));
                    assert forall|j: usize| j < i + 1 implies has_city(mask, j) == has_city(
                        grown,
                        j,
                    ) by {
                        if j < i {
                            assert(has_city(mask, j) == has_city(current, j));
                        }
                    }
                    assert(extends_to_size(mask, grown, (i + 1) as usize, n, size));
                }
            }
            assert forall|k: int| before.len() <= k < subsets@.len() implies departs_within(
                #[trigger] subsets@[k],
                current,
                start,
                (i + 1) as usize,
            ) by {
                if k < during.len() {
                    assert(subsets@[k] == subsets@.subrange(0, during.len() as int)[k]);
                    assert(departs_within(during[k], current, start, i));
                    let j = choose|j: usize|
                        start <= j < i && #[trigger] departs_at(during[k], current, j);
                    assert(departs_at(subsets@[k], current, j));
                } else {
                    let m = subsets@[k];
                    assert(extends_to_size(m, grown, (i + 1) as usize, n, size));
                    assert forall|j: usize| j < i implies has_city(m, j) == has_city(current, j) by {
                        assert(has_city(m, j) == has_city(grown, j));
                    }
                    assert(has_city(m, i) == has_city(grown, i));
                    assert(departs_at(m, current, i));
                }
            }
            assert forall|a: int, b: int|
                before.len() <= a < b < subsets@.len() implies comes_first(
                subsets@[a],
                subsets@[b],
            ) by {
                if b < during.len() {
                    assert(subsets@[a] == subsets@.subrange(0, during.len() as int)[a]);
                    assert(subsets@[b] == subsets@.subrange(0, during.len() as int)[b]);
                    assert(comes_first(during[a], during[b]));
                } else if a < during.len() {
                    // The earlier set left `current` at a city that the later one lacks.
                    assert(subsets@[a] == subsets@.subrange(0, during.len() as int)[a]);
                    assert(departs_within(during[a], current, start, i));
                    let j = choose|j: usize|
                        start <= j < i && #[trigger] departs_at(during[a], current, j);
                    let m = subsets@[b];
                    assert(extends_to_size(m, grown, (i + 1) as usize, n, size));
                    assert forall|c: usize| c <= j implies has_city(m, c) == has_city(
                        current,
                        c,
                    ) by {
                        assert(has_city(m, c) == has_city(grown, c));
                    }
                    assert(departs_at(subsets@[a], m, j));
                }
            }
        }
        i = i + 1;
    }
    proof {
        assert forall|mask: usize| #[trigger]
            extends_to_size(mask, current, start, n, size) implies exists|k: int|
            before.len() <= k < subsets@.len() && subsets@[k] == mask by {
            if agree_below(mask, current, i) {
                // Then `mask` would have as few members as `current`.
                assert(n <= i);
                assert forall|j: usize| j < n implies has_city(mask, j) == has_city(current, j) by {
                    assert(j < i);
                }
                lemma_card_agree(mask, current, n);
                assert(false);
            }
        }
    }
}

/// A set that extends `current` without gaining a member is `current`.
proof fn lemma_only_extension(mask: usize, current: usize, start: usize, n: usize)
    requires
        1 <= start,
        n <= 20,
        valid_mask(current, n),
        valid_mask(mask, n),
        forall|j: usize| start <= j < 20 ==> !has_city(current, j),
        card(current, n as nat) == card(mask, n as nat),
        agree_below(mask, current, start),
    ensures
        mask == current,
{
    lemma_valid_mask_bound(mask, n);
    lemma_valid_mask_bound(current, n);
    assert forall|j: usize| j < 20 implies has_city(mask, j) == has_city(current, j) by {
        if j >= start {
            if has_city(mask, j) {
                lemma_valid_mask_members(mask, n, j);
                // `j` lies in `[start, n)`, where `mask` has no room for a member.
                lemma_card_agree(mask, current, start);
                lemma_card_stops(current, start, n);
                lemma_card_no_more(mask, start, n, j);
            }
        }
    }
    lemma_masks_equal(mask, current);
}

/// All sets of exactly `size` cities from `[1, n)`, each as a bit mask.
pub fn generate_subsets(n: usize, size: usize) -> (subsets: Vec<usize>)
    requires
        n <= 20,
    ensures
        forall|k: int| 0 <= k < subsets@.len() ==> is_subset_of_size(#[trigger] subsets@[k], n, size),
        forall|mask: usize| #[trigger] is_subset_of_size(mask, n, size) ==> subsets@.contains(mask),
        in_listing_order(subsets@),
{
    let mut subsets: Vec<usize> = Vec::new();
    proof {
        lemma_empty_mask(n, 0);
        assert forall|j: usize| j < 20 implies !has_city(0, j) by {
            lemma_empty_mask(n, j);
        }
        lemma_card_stops(0, 0, n);
    }
    extend_subsets(1, 0, 0, size, n, &mut subsets);
    proof {
        assert forall|mask: usize| #[trigger] is_subset_of_size(mask, n, size) implies subsets@.contains(
            mask,
        ) by {
            assert(agree_below(mask, 0, 1)) by {
                lemma_empty_mask(n, 0);
            }
            assert(extends_to_size(mask, 0, 1, n, size));
        }
    }
    subsets
}

/// The two sequences agree on their first `count` entries.
pub open spec fn shares_prefix(a: Seq<usize>, b: Seq<usize>, count: int) -> bool {
    forall|k: int| 0 <= k < count ==> a[k] == b[k]
}

/// The sequence with the entries at positions `a` and `b` exchanged.
pub open spec fn exchanged(arr: Seq<usize>, a: int, b: int) -> Seq<usize> {
    arr.update(a, arr[b]).update(b, arr[a])
}

/// The tours that the search tries, in the order in which it tries them,
/// while it holds the cities before `start` in place and brings to
/// position `start`, one after the other, the cities of the positions from
/// `start` up to, not including, `upto`. With one position left there is
/// one tour to try.
pub open spec fn tried(arr: Seq<usize>, start: int, upto: int) -> Seq<Seq<usize>>
    decreases arr.len() - start, upto,
{
    if start < 0 || start + 1 >= arr.len() {
        seq![arr]
    } else if upto <= start || upto > arr.len() {
        Seq::empty()
    } else {
        tried(arr, start, upto - 1) + tried(
            exchanged(arr, start, upto - 1),
            start + 1,
            arr.len() as int,
        )
    }
}

/// The tour that stays when `candidates` are held against `best` one after
/// the other and a candidate replaces the tour held only if it is shorter.
pub open spec fn keep_best(best: Seq<usize>, candidates: Seq<Seq<usize>>, graph: Seq<Vec<u64>>) -> Seq<
    usize,
>
    decreases candidates.len(),
{
    if candidates.len() == 0 {
        best
    } else {
        let held = keep_best(best, candidates.drop_last(), graph);
        if tour_length(candidates.last(), graph) < tour_length(held, graph) {
            candidates.last()
        } else {
            held
        }
    }
}

/// Holding a second run of candidates against the tour that stayed from a
/// first run is holding both runs, one after the other.
proof fn lemma_keep_best_concat(
    best: Seq<usize>,
    first: Seq<Seq<usize>>,
    second: Seq<Seq<usize>>,
    graph: Seq<Vec<u64>>,
)
    ensures
        keep_best(best, first + second, graph) == keep_best(
            keep_best(best, first, graph),
            second,
            graph,
        ),
    decreases second.len(),
{
    if second.len() == 0 {
        assert(first + second =~= first);
    } else {
        lemma_keep_best_concat(best, first, second.drop_last(), graph);
        assert((first + second).drop_last() =~= first + second.drop_last());
        assert((first + second).last() == second.last());
    }
}

/// The tour that the exhaustive search returns for `n` cities: the first
/// of the shortest tours in the order in which the search tries them.
pub open spec fn exhaustive_choice(n: int, graph: Seq<Vec<u64>>) -> Seq<usize> {
    if n < 2 {
        identity_tour(n)
    } else {
        keep_best(identity_tour(n), tried(identity_tour(n), 1, n), graph)
    }
}

/// Tries every order of the cities of `arr` from position `start` on, with
/// the cities before `start` held in place, and keeps in `best_tour` the
/// shortest tour seen, the first found among equals.
fn permute(
    arr: &mut Vec<usize>,
    start: usize,
    graph: &[Vec<u64>],
    best_tour: &mut Vec<usize>,
    best_length: &mut u128,
)
    requires
        is_square(graph@),
        old(arr)@.len() <= graph@.len(),
        is_tour(old(arr)@, old(arr)@.len() as int),
        1 <= start < old(arr)@.len(),
        is_tour(old(best_tour)@, old(arr)@.len() as int),
        old(best_tour)@[0] == old(arr)@[0],
        *old(best_length) == tour_length(old(best_tour)@, graph@),
    ensures
        final(arr)@ == old(arr)@,
        is_tour(final(best_tour)@, old(arr)@.len() as int),
        final(best_tour)@[0] == old(arr)@[0],
        *final(best_length) == tour_length(final(best_tour)@, graph@),
        *final(best_length) <= *old(best_length),
        forall|tour: Seq<usize>|
            is_tour(tour, old(arr)@.len() as int) && #[trigger] shares_prefix(
                tour,
                old(arr)@,
                start as int,
            ) ==> *final(best_length) <= tour_length(tour, graph@),
        final(best_tour)@ == keep_best(
            old(best_tour)@,
            tried(old(arr)@, start as int, old(arr)@.len() as int),
            graph@,
        ),
    decreases old(arr)@.len() - start,
{
    let n = arr.len();
    let ghost fixed = arr@;
    if start == n - 1 {
        let length = calculate_tour_length(arr.as_slice(), graph);
        if length < *best_length {
            *best_length = length;
            *best_tour = copy_tour(arr.as_slice());
        }
        proof {
            assert forall|tour: Seq<usize>|
                is_tour(tour, n as int) && #[trigger] shares_prefix(
                    tour,
                    fixed,
                    start as int,
                ) implies *best_length <= tour_length(tour, graph@) by {
                lemma_last_city_forced(tour, fixed, n as int);
            }
            assert(tried(fixed, start as int, n as int) =~= seq![fixed]);
            assert(seq![fixed].drop_last() =~= Seq::<Seq<usize>>::empty());
            assert(keep_best(old(best_tour)@, seq![fixed].drop_last(), graph@) == old(best_tour)@);
        }
        return ;
    }
    let mut i = start;
    while i < n
        invariant
            start <= i <= n,
            1 <= start < n - 1,
            n == fixed.len(),
            fixed == old(arr)@,
            arr@ == fixed,
            is_square(graph@),
            n <= graph@.len(),
            is_tour(fixed, n as int),
            is_tour(best_tour@, n as int),
            best_tour@[0] == fixed[0],
            *best_length == tour_length(best_tour@, graph@),
            *best_length <= *old(best_length),
            forall|tour: Seq<usize>, j: int|
                is_tour(tour, n as int) && #[trigger] shares_prefix(tour, fixed, start as int)
                    && start <= j < i && tour[start as int] == #[trigger] fixed[j] ==> *best_length
                    <= tour_length(tour, graph@),
            best_tour@ == keep_best(old(best_tour)@, tried(fixed, start as int, i as int), graph@),
        decreases n - i,
    {
        let ghost length_before = *best_length;
        let ghost held = best_tour@;
        swap_cities(arr, start, i);
        let ghost swapped = arr@;
        proof {
            lemma_swap_is_tour(fixed, start as int, i as int, n as int);
            assert(arr@.len() == n);
        }
        permute(arr, start + 1, graph, best_tour, best_length);
        swap_cities(arr, start, i);
        proof {
            assert(arr@ =~= fixed);
            assert(swapped == exchanged(fixed, start as int, i as int));
            lemma_keep_best_concat(
                old(best_tour)@,
                tried(fixed, start as int, i as int),
                tried(swapped, start + 1, n as int),
                graph@,
            );
            assert forall|tour: Seq<usize>, j: int|
                is_tour(tour, n as int) && #[trigger] shares_prefix(tour, fixed, start as int)
                    && start <= j < i + 1 && tour[start as int] == #[trigger] fixed[j] implies
                *best_length <= tour_length(tour, graph@) by {
                if j == i {
                    assert(shares_prefix(tour, swapped, start + 1));
                } else {
                    assert(length_before <= tour_length(tour, graph@));
                }
            }
        }
        i = i + 1;
    }
    proof {
        assert forall|tour: Seq<usize>|
            is_tour(tour, n as int) && #[trigger] shares_prefix(
                tour,
                fixed,
                start as int,
            ) implies *best_length <= tour_length(tour, graph@) by {
            // The city that `tour` has at `start` stands in `fixed` at `start` or later.
            lemma_tour_visits_every_city(fixed, n as int, tour[start as int]);
            let j = choose|j: int| 0 <= j < n && fixed[j] == tour[start as int];
            if j < start {
                assert(tour[j] == fixed[j]);
                assert(tour[j] != tour[start as int]);
            }
            assert(tour[start as int] == fixed[j]);
        }
    }
}

/// Finds a shortest tour by trying every order of the cities after city 0.
///
/// The tour starts at city 0. Among tours of equal length the one found
/// first stays.
pub fn brute_force_exact(graph: &[Vec<u64>], n: usize) -> (r: (Vec<usize>, u128))
    requires
        is_square(graph@),
        n <= graph@.len(),
    ensures
        is_tour(r.0@, n as int),
        n >= 1 ==> r.0@[0] == 0,
        r.1 == tour_length(r.0@, graph@),
        is_shortest_tour_length(r.1 as int, n as int, graph@),
        r.0@ == exhaustive_choice(n as int, graph@),
{
    let mut cities = make_identity_tour(n);
    let mut best_tour = copy_tour(cities.as_slice());
    let mut best_length = calculate_tour_length(best_tour.as_slice(), graph);
    if n >= 2 {
        permute(&mut cities, 1, graph, &mut best_tour, &mut best_length);
    }
    proof {
        assert forall|tour: Seq<usize>| #[trigger] is_tour(tour, n as int) implies best_length
            <= tour_length(tour, graph@) by {
            if n >= 2 {
                lemma_from_city_zero(tour, n as int, graph@);
                assert(shares_prefix(from_city_zero(tour), identity_tour(n as int), 1));
            } else {
                lemma_last_city_forced(tour, best_tour@, n as int);
            }
        }
        assert(is_tour(best_tour@, n as int));
    }
    (best_tour, best_length)
}

/// A tour that starts at city 0 is a path through all other cities.
proof fn lemma_tour_is_path(tour: Seq<usize>, n: usize)
    requires
        2 <= n <= 20,
        is_tour(tour, n as int),
        tour[0] == 0,
    ensures
        1 <= tour.last() < n,
        is_state(full_mask(n), tour.last(), n),
        is_path_to(tour, full_mask(n), tour.last(), n),
{
    let full = full_mask(n);
    lemma_full_mask(n, 0);
    assert(tour[0] != tour[n - 1]);
    lemma_full_mask(n, tour.last());
    assert forall|k: int| 1 <= k < tour.len() implies 1 <= #[trigger] tour[k] < n && has_city(
        full,
        tour[k],
    ) by {
        assert(tour[0] != tour[k]);
        lemma_full_mask(n, tour[k]);
    }
    assert forall|c: usize| c < 20 && #[trigger] has_city(full, c) implies tour.contains(c) by {
        lemma_full_mask(n, c);
        lemma_tour_visits_every_city(tour, n as int, c);
    }
}

/// Two sequences of which each comes no later than the other are equal:
/// the order of the dictionary has one least element.
pub proof fn lemma_comes_no_later_antisymmetric(first: Seq<usize>, second: Seq<usize>)
    requires
        comes_no_later(first, second),
        comes_no_later(second, first),
    ensures
        first == second,
{
    if first != second {
        let a = choose|k: int|
            0 <= k < first.len() && k < second.len() && first[k] < second[k] && #[trigger] first.take(
                k,
            ) == second.take(k);
        let b = choose|k: int|
            0 <= k < second.len() && k < first.len() && second[k] < first[k]
                && #[trigger] second.take(k) == first.take(k);
        if a < b {
            assert(second.take(b)[a] == first.take(b)[a]);
        } else if b < a {
            assert(first.take(a)[b] == second.take(a)[b]);
        }
    }
}

/// Finds the length of a shortest tour by dynamic programming over sets of
/// cities, and a tour of that length.
///
/// The tour starts at city 0 and then lists the cities of a shortest cycle
/// from the last back to the first, so the length returned is that of the
/// tour read backwards; under a symmetric matrix it is the length of the
/// tour as returned as well. Of the tours from city 0 that are shortest
/// read backwards, the one returned comes first in the order of the
/// dictionary.
pub fn held_karp(graph: &[Vec<u64>], n: usize) -> (r: (Vec<usize>, u128))
    requires
        is_square(graph@),
        n <= graph@.len(),
        n <= 20,
    ensures
        is_tour(r.0@, n as int),
        n >= 1 ==> r.0@[0] == 0,
        r.1 == tour_length(r.0@.reverse(), graph@),
        is_symmetric(graph@) ==> r.1 == tour_length(r.0@, graph@),
        is_shortest_tour_length(r.1 as int, n as int, graph@),
        forall|other: Seq<usize>| #[trigger]
            reads_backward_as(other, n, graph@, r.1 as int) ==> comes_no_later(r.0@, other),
{
    if n <= 1 {
        let tour = make_identity_tour(n);
        let length = calculate_tour_length(tour.as_slice(), graph);
        proof {
            assert(tour@.reverse() =~= tour@);
            assert forall|other: Seq<usize>| #[trigger] is_tour(other, n as int) implies length
                <= tour_length(other, graph@) by {
                lemma_last_city_forced(other, tour@, n as int);
            }
            assert(is_tour(tour@, n as int));
            assert forall|other: Seq<usize>| #[trigger]
                reads_backward_as(other, n, graph@, length as int) implies comes_no_later(
                tour@,
                other,
            ) by {
                lemma_last_city_forced(other, tour@, n as int);
            }
        }
        return (tour, length);
    }
    let mut table = DpTable::new(n);
    table.fill(graph, n);
    let (last_city, length) = table.closing(graph, n);
    let tour = table.walk_back(graph, n, last_city);
    proof {
        lemma_reverse_is_tour(tour@, n as int);
        assert(is_tour(tour@.reverse(), n as int));
        if is_symmetric(graph@) {
            lemma_tour_length_reverse(tour@, graph@);
        }
        assert forall|other: Seq<usize>| #[trigger] is_tour(other, n as int) implies length
            <= tour_length(other, graph@) by {
            lemma_from_city_zero(other, n as int, graph@);
            let rotated = from_city_zero(other);
            lemma_tour_is_path(rotated, n);
            let l = rotated.last();
            lemma_full_mask(n, 0);
            lemma_card_limit(full_mask(n), n);
            assert(table.solved(full_mask(n), l, n, graph@));
            assert(table.cost_of(full_mask(n), l, n) <= path_length(rotated, graph@));
        }
    }
    (tour, length)
}

/// Solves the instance exactly where that is feasible: by exhaustive
/// search up to 10 cities, by dynamic programming up to 20, and not at all
/// beyond.
pub fn find_optimal(graph: &[Vec<u64>], n: usize) -> (r: Option<(Vec<usize>, u128)>)
    requires
        n <= 20 ==> is_square(graph@) && n <= graph@.len(),
    ensures
        r is None <==> n > 20,
        r matches Some(found) ==> {
            &&& is_tour(found.0@, n as int)
            &&& n >= 1 ==> found.0@[0] == 0
            &&& is_shortest_tour_length(found.1 as int, n as int, graph@)
            &&& n <= 10 ==> found.1 == tour_length(found.0@, graph@)
            &&& n <= 10 ==> found.0@ == exhaustive_choice(n as int, graph@)
            &&& n > 10 ==> found.1 == tour_length(found.0@.reverse(), graph@)
            &&& n > 10 ==> forall|other: Seq<usize>| #[trigger]
                reads_backward_as(other, n, graph@, found.1 as int) ==> comes_no_later(
                    found.0@,
                    other,
                )
            &&& is_symmetric(graph@) ==> found.1 == tour_length(found.0@, graph@)
        },
{
    if n > 20 {
        return None;
    }
    if n <= 10 {
        Some(brute_force_exact(graph, n))
    } else {
        Some(held_karp(graph, n))
    }
}

} // verus!
