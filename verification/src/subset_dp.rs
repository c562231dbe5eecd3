//! The table of the subset dynamic programme: for every set of cities and
//! every city of that set, the length of a shortest path that starts at
//! city 0, visits exactly the cities of the set and ends at that city,
//! together with the city visited just before.

use vstd::prelude::*;
use crate::bitmask::{
    card, full_mask, has_city, is_subset_of_size, lemma_card_limit, lemma_card_monotone,
    lemma_empty_mask, lemma_full_mask, lemma_card_stops, lemma_card_toggle, lemma_some_member,
    lemma_toggle, lemma_toggle_valid, lemma_valid_mask_bound, lemma_valid_mask_members, valid_mask,
};
use crate::brute_force::generate_subsets;
use crate::tour::{
    dist, is_square, is_tour, lemma_path_length_concat, lemma_path_length_push,
    lemma_tour_length_rotate, lemma_tour_visits_every_city, no_repeats, path_length, tour_length,
};

verus! {

/// The cost that marks a state no path has reached. No path is this long.
pub const UNREACHED: u128 = u128::MAX;

/// `path` starts at city 0, then visits exactly the cities of `mask`, each
/// once, and ends at `last`.
pub open spec fn is_path_to(path: Seq<usize>, mask: usize, last: usize, n: usize) -> bool {
    &&& path.len() >= 2
    &&& path[0] == 0
    &&& path.last() == last
    &&& no_repeats(path)
    &&& forall|k: int| 1 <= k < path.len() ==> 1 <= #[trigger] path[k] < n && has_city(mask, path[k])
    &&& forall|c: usize| c < 20 && #[trigger] has_city(mask, c) ==> path.contains(c)
}

/// `cost` is the length of a shortest path from city 0 through exactly the
/// cities of `mask` to `last`.
pub open spec fn is_shortest(cost: int, mask: usize, last: usize, n: usize, graph: Seq<Vec<u64>>) -> bool {
    &&& exists|path: Seq<usize>| #[trigger]
        is_path_to(path, mask, last, n) && path_length(path, graph) == cost
    &&& forall|path: Seq<usize>| #[trigger]
        is_path_to(path, mask, last, n) ==> cost <= path_length(path, graph)
}

/// No city of `rest` below `prev` ends a shortest path that, extended to
/// `last`, is as short as `cost`: among the cities from which a path of
/// that length arrives, `prev` is the lowest.
pub open spec fn is_first_arrival(
    prev: usize,
    cost: int,
    rest: usize,
    last: usize,
    n: usize,
    graph: Seq<Vec<u64>>,
) -> bool {
    forall|q: usize, c: int|
        1 <= q < prev && has_city(rest, q) && #[trigger] is_shortest(c, rest, q, n, graph) ==> c
            + dist(graph, q as int, last as int) > cost
}

/// A state has one shortest length.
pub proof fn lemma_shortest_unique(
    a: int,
    b: int,
    mask: usize,
    last: usize,
    n: usize,
    graph: Seq<Vec<u64>>,
)
    requires
        is_shortest(a, mask, last, n, graph),
        is_shortest(b, mask, last, n, graph),
    ensures
        a == b,
{
    let pa = choose|path: Seq<usize>| #[trigger]
        is_path_to(path, mask, last, n) && path_length(path, graph) == a;
    let pb = choose|path: Seq<usize>| #[trigger]
        is_path_to(path, mask, last, n) && path_length(path, graph) == b;
    assert(is_path_to(pa, mask, last, n) && is_path_to(pb, mask, last, n));
}

/// `mask` is a set of cities of `[1, n)` and `last` one of its members.
pub open spec fn is_state(mask: usize, last: usize, n: usize) -> bool {
    &&& valid_mask(mask, n)
    &&& 1 <= last < n
    &&& has_city(mask, last)
}

/// The place of the state `(mask, last)` in the table.
pub open spec fn slot(mask: usize, last: usize, n: usize) -> int {
    (mask / 2) * n + last
}

/// The number of entries of the table for `n` cities.
pub open spec fn table_len(n: usize) -> int {
    ((1usize << n) / 2) * n
}

/// The table of the dynamic programme.
pub struct DpTable {
    pub cost: Vec<u128>,
    pub parent: Vec<usize>,
}

impl DpTable {
    /// The table has an entry for every state of `n` cities.
    pub open spec fn wf(&self, n: usize) -> bool {
        &&& 1 <= n <= 20
        &&& self.cost@.len() == table_len(n)
        &&& self.parent@.len() == table_len(n)
    }

    /// The recorded cost of the state.
    pub open spec fn cost_of(&self, mask: usize, last: usize, n: usize) -> u128 {
        self.cost@[slot(mask, last, n)]
    }

    /// The recorded predecessor of the state.
    pub open spec fn parent_of(&self, mask: usize, last: usize, n: usize) -> usize {
        self.parent@[slot(mask, last, n)]
    }

    /// The recorded cost follows from the recorded predecessor: a set of one
    /// city is entered from city 0, a larger one from the predecessor's state.
    pub open spec fn linked(&self, mask: usize, last: usize, n: usize, graph: Seq<Vec<u64>>) -> bool {
        let rest = mask ^ (1usize << last);
        let prev = self.parent_of(mask, last, n);
        if rest == 0 {
            prev == 0 && self.cost_of(mask, last, n) == dist(graph, 0, last as int)
        } else {
            &&& 1 <= prev < n
            &&& has_city(rest, prev)
            &&& self.cost_of(mask, last, n) == self.cost_of(rest, prev, n) + dist(
                graph,
                prev as int,
                last as int,
            )
            &&& is_first_arrival(prev, self.cost_of(mask, last, n) as int, rest, last, n, graph)
        }
    }

    /// The entry of the state holds the length of a shortest path to it.
    pub open spec fn solved(&self, mask: usize, last: usize, n: usize, graph: Seq<Vec<u64>>) -> bool {
        &&& is_shortest(self.cost_of(mask, last, n) as int, mask, last, n, graph)
        &&& self.linked(mask, last, n, graph)
        &&& self.cost_of(mask, last, n) <= card(mask, n as nat) * u64::MAX
    }

    /// Every state of at most `size` cities is solved.
    pub open spec fn filled(&self, size: nat, n: usize, graph: Seq<Vec<u64>>) -> bool {
        forall|mask: usize, last: usize| #[trigger]
            is_state(mask, last, n) && card(mask, n as nat) <= size ==> self.solved(
                mask,
                last,
                n,
                graph,
            )
    }
}

/// A state's slot lies within the table.
pub proof fn lemma_slot_in_table(mask: usize, last: usize, n: usize)
    requires
        1 <= n <= 20,
        mask < (1usize << n),
        last < n,
    ensures
        0 <= slot(mask, last, n) < table_len(n),
        table_len(n) <= 0x8_0000 * 20,
{
    lemma_valid_mask_bound(mask, n);
    let rows = ((1usize << n) / 2) as int;
    let row = (mask / 2) as int;
    assert(row * n + last < rows * n) by (nonlinear_arith)
        requires
            0 <= row < rows,
            0 <= last < n,
    ;
    assert(rows * n <= 0x8_0000 * 20) by (nonlinear_arith)
        requires
            0 <= rows <= 0x8_0000,
            0 <= n <= 20,
    ;
}

/// Different states have different slots.
pub proof fn lemma_slot_injective(m1: usize, l1: usize, m2: usize, l2: usize, n: usize)
    requires
        m1 & 1 == 0,
        m2 & 1 == 0,
        l1 < n,
        l2 < n,
        slot(m1, l1, n) == slot(m2, l2, n),
    ensures
        m1 == m2,
        l1 == l2,
{
    let a = (m1 / 2) as int;
    let b = (m2 / 2) as int;
    assert(a == b) by (nonlinear_arith)
        requires
            a * n + l1 == b * n + l2,
            0 <= l1 < n,
            0 <= l2 < n,
    ;
    assert(m1 == 2 * (m1 / 2)) by (bit_vector)
        requires
            m1 & 1 == 0,
    ;
    assert(m2 == 2 * (m2 / 2)) by (bit_vector)
        requires
            m2 & 1 == 0,
    ;
}

/// The only path to a set of one city is the edge from city 0.
pub proof fn lemma_single_city_path(last: usize, n: usize, graph: Seq<Vec<u64>>)
    requires
        1 <= last < n <= 20,
    ensures
        is_shortest(dist(graph, 0, last as int), (1usize << last), last, n, graph),
{
    let mask = 1usize << last;
    let direct = seq![0usize, last];
    assert forall|c: usize| c < 20 implies has_city(mask, c) == (c == last) by {
        lemma_toggle(0, last, c);
    }
    assert(direct[1] == last);
    assert(direct.drop_last() =~= seq![0usize]);
    assert(path_length(direct, graph) == dist(graph, 0, last as int)) by {
        assert(path_length(seq![0usize], graph) == 0);
    }
    assert(is_path_to(direct, mask, last, n));
    assert forall|path: Seq<usize>| #[trigger] is_path_to(path, mask, last, n) implies dist(
        graph,
        0,
        last as int,
    ) <= path_length(path, graph) by {
        if path.len() > 2 {
            assert(has_city(mask, path[1]));
            assert(path[1] == path[path.len() - 1]);
        }
        assert(path =~= direct);
    }
}

/// A path to a set, extended by a city outside the set, is a path to the
/// set with that city.
pub proof fn lemma_path_extend(
    path: Seq<usize>,
    rest: usize,
    prev: usize,
    mask: usize,
    last: usize,
    n: usize,
)
    requires
        is_path_to(path, rest, prev, n),
        1 <= last < n <= 20,
        !has_city(rest, last),
        forall|c: usize| c < 20 ==> has_city(mask, c) == (has_city(rest, c) || c == last),
    ensures
        is_path_to(path.push(last), mask, last, n),
{
    let longer = path.push(last);
    assert forall|i: int, j: int| 0 <= i < j < longer.len() implies longer[i] != longer[j] by {
        if j == path.len() && i >= 1 {
            assert(has_city(rest, path[i]));
        }
    }
    assert forall|k: int| 1 <= k < longer.len() implies 1 <= #[trigger] longer[k] < n && has_city(
        mask,
        longer[k],
    ) by {
        if k < path.len() {
            assert(longer[k] == path[k]);
            assert(has_city(rest, path[k]));
        }
    }
    assert forall|c: usize| c < 20 && #[trigger] has_city(mask, c) implies longer.contains(c) by {
        if c == last {
            assert(longer[path.len() as int] == c);
        } else {
            assert(has_city(rest, c));
            let k = choose|k: int| 0 <= k < path.len() && path[k] == c;
            assert(longer[k] == c);
        }
    }
}

/// A path to a set of more than one city, without its last city, is a path
/// to the set without that city.
pub proof fn lemma_path_shrink(path: Seq<usize>, mask: usize, last: usize, rest: usize, n: usize)
    requires
        is_path_to(path, mask, last, n),
        n <= 20,
        valid_mask(rest, n),
        rest != 0,
        forall|c: usize| c < 20 ==> has_city(rest, c) == (has_city(mask, c) && c != last),
    ensures
        path.len() >= 3,
        1 <= path[path.len() - 2] < n,
        has_city(rest, path[path.len() - 2]),
        is_path_to(path.drop_last(), rest, path[path.len() - 2], n),
{
    lemma_valid_mask_bound(rest, n);
    let other = lemma_some_member(rest);
    lemma_valid_mask_members(rest, n, other);
    assert(has_city(mask, other));
    let at = choose|k: int| 0 <= k < path.len() && path[k] == other;
    assert(at != 0);
    assert(at != path.len() - 1);
    let shorter = path.drop_last();
    assert forall|k: int| 1 <= k < shorter.len() implies 1 <= #[trigger] shorter[k] < n && has_city(
        rest,
        shorter[k],
    ) by {
        assert(shorter[k] == path[k]);
        assert(has_city(mask, path[k]));
        assert(path[k] != path[path.len() - 1]);
    }
    assert forall|c: usize| c < 20 && #[trigger] has_city(rest, c) implies shorter.contains(c) by {
        assert(has_city(mask, c));
        let k = choose|k: int| 0 <= k < path.len() && path[k] == c;
        assert(shorter[k] == c);
    }
    assert(shorter[shorter.len() - 1] == path[path.len() - 2]);
}

/// A set with a member has at least one member; one with no member but
/// `last` is the set of `last` alone.
pub proof fn lemma_state_card(mask: usize, last: usize, n: usize)
    requires
        is_state(mask, last, n),
        n <= 20,
    ensures
        card(mask, n as nat) >= 1,
        card(mask ^ (1usize << last), n as nat) == card(mask, n as nat) - 1,
        valid_mask(mask ^ (1usize << last), n),
        !has_city(mask ^ (1usize << last), last),
        forall|c: usize|
            c < 20 ==> has_city(mask ^ (1usize << last), c) == (has_city(mask, c) && c != last),
        (mask ^ (1usize << last)) == 0 <==> card(mask, n as nat) == 1,
        (mask ^ (1usize << last)) == 0 <==> mask == (1usize << last),
{
    let rest = mask ^ (1usize << last);
    lemma_toggle_valid(mask, last, n);
    assert forall|c: usize| c < 20 implies has_city(rest, c) == (has_city(mask, c) && c != last) by {
        lemma_toggle(mask, last, c);
    }
    lemma_card_toggle(mask, rest, last, n);
    if rest == 0 {
        assert forall|j: usize| 0 <= j < n implies !has_city(0, j) by {
            lemma_empty_mask(n, j);
        }
        lemma_card_stops(0, 0, n);
    } else {
        lemma_valid_mask_bound(rest, n);
        let other = lemma_some_member(rest);
        lemma_valid_mask_members(rest, n, other);
        let rest2 = rest ^ (1usize << other);
        assert forall|c: usize| c < n && c != other implies has_city(rest, c) == has_city(
            rest2,
            c,
        ) by {
            lemma_toggle(rest, other, c);
        }
        lemma_toggle(rest, other, other);
        lemma_card_toggle(rest, rest2, other, n);
    }
    assert(rest == 0 <==> mask == (1usize << last)) by (bit_vector)
        requires
            rest == mask ^ (1usize << last),
    ;
}

/// A write to the slot of one state leaves solved every other state that
/// has no more cities.
pub proof fn lemma_write_keeps_solved(
    before: DpTable,
    after: DpTable,
    mask: usize,
    last: usize,
    m2: usize,
    l2: usize,
    n: usize,
    graph: Seq<Vec<u64>>,
)
    requires
        before.wf(n),
        after.wf(n),
        is_state(mask, last, n),
        is_state(m2, l2, n),
        m2 != mask || l2 != last,
        card(m2, n as nat) <= card(mask, n as nat),
        before.solved(m2, l2, n, graph),
        forall|i: int|
            0 <= i < table_len(n) && i != slot(mask, last, n) ==> after.cost@[i] == before.cost@[i]
                && after.parent@[i] == before.parent@[i],
    ensures
        after.solved(m2, l2, n, graph),
{
    lemma_slot_in_table(m2, l2, n);
    if slot(m2, l2, n) == slot(mask, last, n) {
        lemma_slot_injective(m2, l2, mask, last, n);
    }
    let rest = m2 ^ (1usize << l2);
    lemma_state_card(m2, l2, n);
    if rest != 0 {
        let prev = before.parent_of(m2, l2, n);
        lemma_slot_in_table(rest, prev, n);
        if slot(rest, prev, n) == slot(mask, last, n) {
            lemma_slot_injective(rest, prev, mask, last, n);
        }
    }
}

impl DpTable {
    /// A table for `n` cities in which no state is reached.
    pub fn new(n: usize) -> (table: DpTable)
        requires
            1 <= n <= 20,
        ensures
            table.wf(n),
    {
        proof {
            lemma_empty_mask(n, 0);
            lemma_slot_in_table(0, 0, n);
        }
        let len = ((1usize << n) / 2) * n;
        let mut cost: Vec<u128> = Vec::new();
        let mut parent: Vec<usize> = Vec::new();
        let mut i: usize = 0;
        while i < len
            invariant
                i <= len,
                cost@.len() == i,
                parent@.len() == i,
            decreases len - i,
        {
            cost.push(UNREACHED);
            parent.push(0);
            i = i + 1;
        }
        DpTable { cost, parent }
    }

    /// Enters the paths of one edge: from city 0 straight to each other city.
    pub fn seed(&mut self, graph: &[Vec<u64>], n: usize)
        requires
            old(self).wf(n),
            is_square(graph@),
            n <= graph@.len(),
        ensures
            final(self).wf(n),
            final(self).filled(1, n, graph@),
    {
        let mut i: usize = 1;
        while i < n
            invariant
                1 <= i <= n,
                self.wf(n),
                is_square(graph@),
                n <= graph@.len(),
                forall|j: usize| 1 <= j < i ==> self.solved(#[trigger] (1usize << j), j, n, graph@),
            decreases n - i,
        {
            let mask = 1usize << i;
            proof {
                lemma_empty_mask(n, 0);
                lemma_toggle_valid(0, i, n);
                lemma_slot_in_table(mask, i, n);
            }
            let at = (mask / 2) * n + i;
            let ghost before = *self;
            self.cost.set(at, graph[0][i] as u128);
            self.parent.set(at, 0);
            proof {
                lemma_single_state(i, n);
                lemma_single_city_path(i, n, graph@);
                assert(self.solved(mask, i, n, graph@));
                assert forall|j: usize| 1 <= j < i implies self.solved(
                    #[trigger] (1usize << j),
                    j,
                    n,
                    graph@,
                ) by {
                    lemma_single_state(j, n);
                    lemma_write_keeps_solved(before, *self, mask, i, (1usize << j), j, n, graph@);
                }
            }
            i = i + 1;
        }
        proof {
            assert forall|mask: usize, last: usize| #[trigger]
                is_state(mask, last, n) && card(mask, n as nat) <= 1 implies self.solved(
                mask,
                last,
                n,
                graph@,
            ) by {
                lemma_state_card(mask, last, n);
                assert(mask == (1usize << last));
            }
        }
    }

    /// Solves the state `(mask, last)` of two or more cities from the
    /// states with one city fewer: the path arrives from whichever other
    /// city of the set makes it shortest, the lowest such city on a tie.
    pub fn relax(&mut self, graph: &[Vec<u64>], n: usize, mask: usize, last: usize)
        requires
            old(self).wf(n),
            is_square(graph@),
            n <= graph@.len(),
            is_state(mask, last, n),
            card(mask, n as nat) >= 2,
            old(self).filled((card(mask, n as nat) - 1) as nat, n, graph@),
        ensures
            final(self).wf(n),
            final(self).solved(mask, last, n, graph@),
            forall|m2: usize, l2: usize| #[trigger]
                is_state(m2, l2, n) && card(m2, n as nat) <= card(mask, n as nat) && old(
                    self,
                ).solved(m2, l2, n, graph@) ==> final(self).solved(m2, l2, n, graph@),
    {
        let rest = mask ^ (1usize << last);
        proof {
            lemma_state_card(mask, last, n);
        }
        let mut best: u128 = UNREACHED;
        let mut best_prev: usize = 0;
        let mut prev: usize = 1;
        while prev < n
            invariant
                1 <= prev <= n,
                self.wf(n),
                *self == *old(self),
                is_square(graph@),
                n <= graph@.len(),
                is_state(mask, last, n),
                rest == mask ^ (1usize << last),
                valid_mask(rest, n),
                card(rest, n as nat) == card(mask, n as nat) - 1,
                card(mask, n as nat) >= 2,
                self.filled((card(mask, n as nat) - 1) as nat, n, graph@),
                best == UNREACHED ==> forall|q: usize| 1 <= q < prev ==> !has_city(rest, q),
                best != UNREACHED ==> 1 <= best_prev < prev && has_city(rest, best_prev) && best
                    == self.cost_of(rest, best_prev, n) + dist(graph@, best_prev as int, last as int),
                forall|q: usize|
                    1 <= q < prev && has_city(rest, q) ==> best <= self.cost_of(rest, q, n) + dist(
                        graph@,
                        q as int,
                        last as int,
                    ),
                forall|q: usize|
                    1 <= q < best_prev && has_city(rest, q) ==> best < self.cost_of(rest, q, n)
                        + dist(graph@, q as int, last as int),
            decreases n - prev,
        {
            if rest & (1usize << prev) != 0 {
                proof {
                    assert(is_state(rest, prev, n));
                    assert(self.solved(rest, prev, n, graph@));
                    lemma_slot_in_table(rest, prev, n);
                    lemma_card_monotone(rest, 0, n);
                    assert(card(rest, n as nat) * u64::MAX <= 20 * u64::MAX) by (nonlinear_arith)
                        requires
                            card(rest, n as nat) <= 20,
                    ;
                }
                let reached = self.cost[(rest / 2) * n + prev];
                if reached != UNREACHED {
                    let through = reached + graph[prev][last] as u128;
                    if through < best {
                        best = through;
                        best_prev = prev;
                    }
                }
            }
            prev = prev + 1;
        }
        proof {
            lemma_valid_mask_bound(rest, n);
            let other = lemma_some_member(rest);
            lemma_valid_mask_members(rest, n, other);
            assert(best != UNREACHED);
            lemma_slot_in_table(mask, last, n);
        }
        if best != UNREACHED {
            let at = (mask / 2) * n + last;
            self.cost.set(at, best);
            self.parent.set(at, best_prev);
        }
        proof {
            let before = *old(self);
            assert forall|m2: usize, l2: usize| #[trigger]
                is_state(m2, l2, n) && card(m2, n as nat) <= card(mask, n as nat) && before.solved(
                    m2,
                    l2,
                    n,
                    graph@,
                ) && (m2 != mask || l2 != last) implies self.solved(m2, l2, n, graph@) by {
                lemma_write_keeps_solved(before, *self, mask, last, m2, l2, n, graph@);
            }
            // The state of the chosen predecessor is one of those kept.
            assert(is_state(rest, best_prev, n));
            assert(before.solved(rest, best_prev, n, graph@));
            assert(self.solved(rest, best_prev, n, graph@));
            lemma_slot_in_table(rest, best_prev, n);
            if slot(rest, best_prev, n) == slot(mask, last, n) {
                lemma_slot_injective(rest, best_prev, mask, last, n);
            }
            assert(self.cost_of(rest, best_prev, n) == before.cost_of(rest, best_prev, n));
            assert forall|q: usize, c: int|
                1 <= q < best_prev && has_city(rest, q) && #[trigger] is_shortest(
                    c,
                    rest,
                    q,
                    n,
                    graph@,
                ) implies c + dist(graph@, q as int, last as int) > best by {
                assert(is_state(rest, q, n));
                assert(before.solved(rest, q, n, graph@));
                lemma_shortest_unique(c, before.cost_of(rest, q, n) as int, rest, q, n, graph@);
            }
            assert(self.linked(mask, last, n, graph@));
            // A path of this length exists: a shortest one to the predecessor, extended.
            let to_prev = choose|path: Seq<usize>| #[trigger]
                is_path_to(path, rest, best_prev, n) && path_length(path, graph@)
                    == before.cost_of(rest, best_prev, n);
            lemma_path_extend(to_prev, rest, best_prev, mask, last, n);
            lemma_path_length_push(to_prev, last, graph@);
            assert(is_path_to(to_prev.push(last), mask, last, n) && path_length(
                to_prev.push(last),
                graph@,
            ) == best);
            // No path is shorter: each arrives from some city of the rest.
            assert forall|path: Seq<usize>| #[trigger] is_path_to(path, mask, last, n) implies best
                <= path_length(path, graph@) by {
                lemma_path_shrink(path, mask, last, rest, n);
                let q = path[path.len() - 2];
                assert(is_state(rest, q, n));
                assert(before.solved(rest, q, n, graph@));
                assert(is_path_to(path.drop_last(), rest, q, n));
                assert(before.cost_of(rest, q, n) <= path_length(path.drop_last(), graph@));
            }
            assert(card(mask, n as nat) * u64::MAX == card(rest, n as nat) * u64::MAX + u64::MAX)
                by (nonlinear_arith)
                requires
                    card(rest, n as nat) == card(mask, n as nat) - 1,
            ;
        }
    }
}

/// The path that the tour `tour`, read backwards, takes from city 0 to
/// the city at position `k`.
pub open spec fn front_path(tour: Seq<usize>, k: int) -> Seq<usize> {
    seq![0usize] + tour.subrange(k, tour.len() as int).reverse()
}

/// `tour` is a tour from city 0 that, read backwards, has the length `length`.
pub open spec fn reads_backward_as(tour: Seq<usize>, n: usize, graph: Seq<Vec<u64>>, length: int) -> bool {
    &&& is_tour(tour, n as int)
    &&& tour[0] == 0
    &&& tour_length(tour.reverse(), graph) == length
}

/// `first` comes no later than `second` in the order of the dictionary:
/// they are equal, or `first` has the lower city where they first differ.
pub open spec fn comes_no_later(first: Seq<usize>, second: Seq<usize>) -> bool {
    first == second || exists|k: int|
        0 <= k < first.len() && k < second.len() && first[k] < second[k] && #[trigger] first.take(k)
            == second.take(k)
}

/// The walk, which has visited `tour` and stands before `current`, has
/// not fallen behind `other`: it has taken a lower city somewhere, or it
/// agrees with `other` so far, stands before a city no higher than the
/// next of `other`, and, if before the same, the way that `other` has yet
/// to go is as short as any, namely `here`.
pub open spec fn on_track(
    tour: Seq<usize>,
    other: Seq<usize>,
    current: usize,
    here: int,
    graph: Seq<Vec<u64>>,
) -> bool {
    let k = tour.len() as int;
    ||| exists|j: int| 0 <= j < k && tour[j] < other[j] && #[trigger] tour.take(j) == other.take(j)
    ||| {
        &&& other.take(k) == tour
        &&& k < other.len() ==> current <= other[k] && (other[k] == current ==> path_length(
            front_path(other, k),
            graph,
        ) == here)
    }
}

/// The way that a tour, read backwards, takes to its city at position `k`
/// is a path through the cities at the positions from `k` on.
pub proof fn lemma_front_path(tour: Seq<usize>, k: int, mask: usize, n: usize)
    requires
        n <= 20,
        is_tour(tour, n as int),
        tour[0] == 0,
        1 <= k < n,
        forall|c: usize|
            c < 20 ==> (has_city(mask, c) <==> exists|j: int| k <= j < n && #[trigger] tour[j] == c),
    ensures
        is_path_to(front_path(tour, k), mask, tour[k], n),
{
    let tail = tour.subrange(k, n as int);
    let front = front_path(tour, k);
    assert forall|i: int| 1 <= i < front.len() implies front[i] == tour[n - i] by {
        assert(front[i] == tail.reverse()[i - 1]);
        assert(tail.reverse()[i - 1] == tail[tail.len() - 1 - (i - 1)]);
    }
    assert(front.last() == tour[k]);
    assert forall|a: int, b: int| 0 <= a < b < front.len() implies front[a] != front[b] by {
        if a == 0 {
            assert(tour[0] != tour[n - b]);
        } else {
            assert(tour[n - b] != tour[n - a]);
        }
    }
    assert forall|i: int| 1 <= i < front.len() implies 1 <= #[trigger] front[i] < n && has_city(
        mask,
        front[i],
    ) by {
        assert(tour[0] != tour[n - i]);
        assert(tour[n - i] < n);
        assert(k <= n - i < n && tour[n - i] == front[i]);
    }
    assert forall|c: usize| c < 20 && #[trigger] has_city(mask, c) implies front.contains(c) by {
        let j = choose|j: int| k <= j < n && #[trigger] tour[j] == c;
        assert(front[n - j] == c);
    }
}

/// A tour from city 0 is, read backwards, as long as its way from city 0
/// to its second city and the edge from there back to city 0.
pub proof fn lemma_backward_length(tour: Seq<usize>, n: usize, graph: Seq<Vec<u64>>)
    requires
        n >= 2,
        is_tour(tour, n as int),
        tour[0] == 0,
    ensures
        tour_length(tour.reverse(), graph) == path_length(front_path(tour, 1), graph) + dist(
            graph,
            tour[1] as int,
            0,
        ),
{
    let back = tour.subrange(1, n as int).reverse();
    let zero = seq![0usize];
    assert(tour.reverse() =~= back + zero);
    assert(path_length(zero, graph) == 0);
    lemma_path_length_concat(back, zero, graph);
    lemma_path_length_concat(zero, back, graph);
    assert(back.last() == tour[1]);
    assert((back + zero).last() == 0);
    assert((back + zero)[0] == back[0]);
}

/// The cities not yet visited by a walk that agrees with `other` so far
/// are the cities that `other` has at its later positions.
proof fn lemma_cities_ahead(tour: Seq<usize>, other: Seq<usize>, mask: usize, n: usize)
    requires
        2 <= n <= 20,
        valid_mask(mask, n),
        is_tour(other, n as int),
        1 <= tour.len() < n,
        other.take(tour.len() as int) == tour,
        tour[0] == 0,
        forall|i: int| 1 <= i < tour.len() ==> 1 <= #[trigger] tour[i] < n && !has_city(mask, tour[i]),
        forall|c: usize| 1 <= c < n && !has_city(mask, c) ==> tour.contains(c),
    ensures
        forall|c: usize|
            c < 20 ==> (has_city(mask, c) <==> exists|j: int|
                tour.len() <= j < n && #[trigger] other[j] == c),
{
    let k = tour.len() as int;
    assert forall|c: usize| c < 20 implies (has_city(mask, c) <==> exists|j: int|
        k <= j < n && #[trigger] other[j] == c) by {
        if has_city(mask, c) {
            lemma_valid_mask_members(mask, n, c);
            lemma_tour_visits_every_city(other, n as int, c);
            let j = choose|j: int| 0 <= j < n && other[j] == c;
            if j < k {
                assert(other.take(k)[j] == other[j]);
                assert(tour[j] == c);
                if j == 0 {
                } else {
                    assert(!has_city(mask, tour[j]));
                }
            }
            assert(k <= j < n && other[j] == c);
        }
        if exists|j: int| k <= j < n && #[trigger] other[j] == c {
            let j = choose|j: int| k <= j < n && #[trigger] other[j] == c;
            assert(other[0] == other.take(k)[0]);
            assert(other[0] != other[j]);
            assert(other[j] < n);
            if !has_city(mask, c) {
                let i = choose|i: int| 0 <= i < tour.len() && tour[i] == c;
                assert(other.take(k)[i] == other[i]);
                assert(other[i] != other[j]);
            }
        }
    }
}

impl DpTable {
    /// At its start the walk back is on track against every tour from
    /// city 0 that, read backwards, is shortest.
    pub proof fn lemma_track_start(
        &self,
        other: Seq<usize>,
        n: usize,
        graph: Seq<Vec<u64>>,
        last_city: usize,
        length: int,
    )
        requires
            self.wf(n),
            n >= 2,
            1 <= last_city < n,
            self.filled(n as nat, n, graph),
            length == self.cost_of(full_mask(n), last_city, n) + dist(graph, last_city as int, 0),
            forall|l: usize|
                1 <= l < n ==> length <= #[trigger] self.cost_of(full_mask(n), l, n) + dist(
                    graph,
                    l as int,
                    0,
                ),
            forall|l: usize|
                1 <= l < last_city ==> length < #[trigger] self.cost_of(full_mask(n), l, n) + dist(
                    graph,
                    l as int,
                    0,
                ),
            reads_backward_as(other, n, graph, length),
        ensures
            on_track(
                seq![0usize],
                other,
                last_city,
                self.cost_of(full_mask(n), last_city, n) as int,
                graph,
            ),
    {
        let full = full_mask(n);
        let l = other[1];
        assert(other[0] != other[1]);
        assert(other[1] < n);
        lemma_backward_length(other, n, graph);
        lemma_full_mask(n, 0);
        assert forall|c: usize| c < 20 implies (has_city(full, c) <==> exists|j: int|
            1 <= j < n && #[trigger] other[j] == c) by {
            lemma_full_mask(n, c);
            if has_city(full, c) {
                lemma_tour_visits_every_city(other, n as int, c);
                let j = choose|j: int| 0 <= j < n && other[j] == c;
                assert(1 <= j < n && other[j] == c);
            }
            if exists|j: int| 1 <= j < n && #[trigger] other[j] == c {
                let j = choose|j: int| 1 <= j < n && #[trigger] other[j] == c;
                assert(other[0] != other[j]);
                assert(other[j] < n);
            }
        }
        lemma_front_path(other, 1, full, n);
        lemma_full_mask(n, l);
        lemma_card_limit(full, n);
        assert(is_state(full, l, n));
        assert(self.solved(full, l, n, graph));
        assert(self.cost_of(full, l, n) <= path_length(front_path(other, 1), graph));
        assert(length <= self.cost_of(full, l, n) + dist(graph, l as int, 0));
        assert(other.take(1) =~= seq![0usize]);
    }

    /// A step of the walk back keeps it on track.
    pub proof fn lemma_track_step(
        &self,
        other: Seq<usize>,
        tour: Seq<usize>,
        current: usize,
        mask: usize,
        n: usize,
        graph: Seq<Vec<u64>>,
        length: int,
    )
        requires
            self.wf(n),
            2 <= n <= 20,
            self.filled(n as nat, n, graph),
            is_state(mask, current, n),
            1 <= tour.len() < n,
            tour[0] == 0,
            no_repeats(tour),
            forall|i: int|
                1 <= i < tour.len() ==> 1 <= #[trigger] tour[i] < n && !has_city(mask, tour[i]),
            forall|c: usize| 1 <= c < n && !has_city(mask, c) ==> tour.contains(c),
            tour.len() - 1 + card(mask, n as nat) == n - 1,
            reads_backward_as(other, n, graph, length),
            on_track(tour, other, current, self.cost_of(mask, current, n) as int, graph),
        ensures
            on_track(
                tour.push(current),
                other,
                self.parent_of(mask, current, n),
                self.cost_of(
                    (mask ^ (1usize << current)),
                    self.parent_of(mask, current, n),
                    n,
                ) as int,
                graph,
            ),
    {
        let k = tour.len() as int;
        let grown = tour.push(current);
        let rest = mask ^ (1usize << current);
        let prev = self.parent_of(mask, current, n);
        lemma_state_card(mask, current, n);
        lemma_valid_mask_no_zero(mask, n);
        lemma_card_limit(mask, n);
        assert(self.solved(mask, current, n, graph));
        if exists|j: int| 0 <= j < k && tour[j] < other[j] && #[trigger] tour.take(j) == other.take(j) {
            let j = choose|j: int|
                0 <= j < k && tour[j] < other[j] && #[trigger] tour.take(j) == other.take(j);
            assert(grown.take(j) =~= tour.take(j));
            assert(grown[j] == tour[j]);
        } else if current < other[k] {
            assert(grown.take(k) =~= tour);
            assert(grown[k] == current);
            assert(grown.take(k) == other.take(k));
        } else {
            assert(other[k] == current);
            assert(other.take(k + 1) =~= grown);
            if k + 1 < n {
                // The way that `other` has yet to go arrives at `current`
                // from its next city, as a path through the rest.
                let next = other[k + 1];
                lemma_cities_ahead(tour, other, mask, n);
                assert forall|c: usize| c < 20 implies (has_city(rest, c) <==> exists|j: int|
                    k + 1 <= j < n && #[trigger] other[j] == c) by {
                    assert(has_city(rest, c) == (has_city(mask, c) && c != current));
                    if has_city(rest, c) {
                        assert(has_city(mask, c));
                        let j = choose|j: int| k <= j < n && #[trigger] other[j] == c;
                        assert(k + 1 <= j < n && other[j] == c);
                    }
                    if exists|j: int| k + 1 <= j < n && #[trigger] other[j] == c {
                        let j = choose|j: int| k + 1 <= j < n && #[trigger] other[j] == c;
                        assert(k <= j < n && other[j] == c);
                        assert(other[k] != other[j]);
                        assert(has_city(mask, c));
                    }
                }
                lemma_front_path(other, k + 1, rest, n);
                assert(front_path(other, k) =~= front_path(other, k + 1).push(current)) by {
                    let shorter = other.subrange(k + 1, n as int);
                    let longer = other.subrange(k, n as int);
                    assert(longer.reverse() =~= shorter.reverse().push(current));
                }
                lemma_path_length_push(front_path(other, k + 1), current, graph);
                assert(front_path(other, k + 1).last() == next);
                assert(k + 1 <= k + 1 < n && other[k + 1] == next);
                assert(has_city(rest, next));
                lemma_valid_mask_members(rest, n, next);
                assert(rest != 0) by {
                    if rest == 0 {
                        lemma_empty_mask(n, next);
                    }
                }
                lemma_card_limit(rest, n);
                assert(is_state(rest, next, n));
                assert(self.solved(rest, next, n, graph));
                // No path to the state of `current` is shorter than its cost,
                // a shortest path to the rest extended by `current` neither.
                let to_next = choose|path: Seq<usize>| #[trigger]
                    is_path_to(path, rest, next, n) && path_length(path, graph) == self.cost_of(
                        rest,
                        next,
                        n,
                    );
                lemma_path_extend(to_next, rest, next, mask, current, n);
                lemma_path_length_push(to_next, current, graph);
                assert(is_path_to(to_next.push(current), mask, current, n));
                assert(self.cost_of(mask, current, n) <= path_length(to_next.push(current), graph));
                assert(is_shortest(self.cost_of(rest, next, n) as int, rest, next, n, graph));
                assert(self.linked(mask, current, n, graph));
            } else {
                assert(grown.len() == other.len());
            }
        }
    }
}

impl DpTable {
    /// Solves every state of exactly `size` cities, given that those of
    /// fewer cities are solved.
    pub fn fill_round(&mut self, graph: &[Vec<u64>], n: usize, size: usize)
        requires
            old(self).wf(n),
            is_square(graph@),
            n <= graph@.len(),
            2 <= size < n,
            old(self).filled((size - 1) as nat, n, graph@),
        ensures
            final(self).wf(n),
            final(self).filled(size as nat, n, graph@),
    {
        let subsets = generate_subsets(n, size);
        let mut idx: usize = 0;
        while idx < subsets.len()
            invariant
                idx <= subsets@.len(),
                self.wf(n),
                is_square(graph@),
                n <= graph@.len(),
                2 <= size < n,
                self.filled((size - 1) as nat, n, graph@),
                forall|k: int|
                    0 <= k < subsets@.len() ==> is_subset_of_size(#[trigger] subsets@[k], n, size),
                forall|k: int, l: usize|
                    0 <= k < idx && #[trigger] is_state(subsets@[k], l, n) ==> self.solved(
                        subsets@[k],
                        l,
                        n,
                        graph@,
                    ),
            decreases subsets@.len() - idx,
        {
            let mask = subsets[idx];
            let mut last: usize = 1;
            while last < n
                invariant
                    1 <= last <= n,
                    idx < subsets@.len(),
                    mask == subsets@[idx as int],
                    self.wf(n),
                    is_square(graph@),
                    n <= graph@.len(),
                    2 <= size < n,
                    is_subset_of_size(mask, n, size),
                    forall|k: int|
                        0 <= k < subsets@.len() ==> is_subset_of_size(
                            #[trigger] subsets@[k],
                            n,
                            size,
                        ),
                    self.filled((size - 1) as nat, n, graph@),
                    forall|k: int, l: usize|
                        0 <= k < idx && #[trigger] is_state(subsets@[k], l, n) ==> self.solved(
                            subsets@[k],
                            l,
                            n,
                            graph@,
                        ),
                    forall|l: usize|
                        1 <= l < last && #[trigger] is_state(mask, l, n) ==> self.solved(
                            mask,
                            l,
                            n,
                            graph@,
                        ),
                decreases n - last,
            {
                if mask & (1usize << last) != 0 {
                    let rest = mask ^ (1usize << last);
                    proof {
                        lemma_state_card(mask, last, n);
                    }
                    if rest != 0 {
                        let ghost before = *self;
                        self.relax(graph, n, mask, last);
                        proof {
                            assert forall|m2: usize, l2: usize| #[trigger]
                                is_state(m2, l2, n) && card(m2, n as nat) <= size
                                    - 1 implies self.solved(m2, l2, n, graph@) by {
                                assert(before.solved(m2, l2, n, graph@));
                            }
                            assert forall|k: int, l: usize|
                                0 <= k < idx && #[trigger] is_state(
                                    subsets@[k],
                                    l,
                                    n,
                                ) implies self.solved(subsets@[k], l, n, graph@) by {
                                assert(is_subset_of_size(subsets@[k], n, size));
                                assert(before.solved(subsets@[k], l, n, graph@));
                            }
                            assert forall|l: usize|
                                1 <= l < last && #[trigger] is_state(mask, l, n) implies self.solved(
                                mask,
                                l,
                                n,
                                graph@,
                            ) by {
                                assert(before.solved(mask, l, n, graph@));
                            }
                        }
                    }
                }
                last = last + 1;
            }
            idx = idx + 1;
        }
        proof {
            assert forall|mask: usize, last: usize| #[trigger]
                is_state(mask, last, n) && card(mask, n as nat) <= size implies self.solved(
                mask,
                last,
                n,
                graph@,
            ) by {
                if card(mask, n as nat) == size {
                    assert(is_subset_of_size(mask, n, size));
                    let k = choose|k: int| 0 <= k < subsets@.len() && subsets@[k] == mask;
                    assert(is_state(subsets@[k], last, n));
                }
            }
        }
    }

    /// Solves every state: first the sets of one city, then the larger
    /// sets in order of their size.
    pub fn fill(&mut self, graph: &[Vec<u64>], n: usize)
        requires
            old(self).wf(n),
            is_square(graph@),
            n <= graph@.len(),
        ensures
            final(self).wf(n),
            final(self).filled(n as nat, n, graph@),
    {
        self.seed(graph, n);
        let mut size: usize = 2;
        while size < n
            invariant
                2 <= size,
                self.wf(n),
                is_square(graph@),
                n <= graph@.len(),
                self.filled((size - 1) as nat, n, graph@),
            decreases n - size,
        {
            self.fill_round(graph, n, size);
            size = size + 1;
        }
        proof {
            assert forall|mask: usize, last: usize| #[trigger]
                is_state(mask, last, n) && card(mask, n as nat) <= n implies self.solved(
                mask,
                last,
                n,
                graph@,
            ) by {
                lemma_valid_mask_no_zero(mask, n);
                lemma_card_limit(mask, n);
            }
        }
    }

    /// The city at which a shortest tour ends before it returns to city 0,
    /// the lowest such city on a tie, and the length of that tour.
    pub fn closing(&self, graph: &[Vec<u64>], n: usize) -> (r: (usize, u128))
        requires
            self.wf(n),
            n >= 2,
            is_square(graph@),
            n <= graph@.len(),
            self.filled(n as nat, n, graph@),
        ensures
            1 <= r.0 < n,
            r.1 == self.cost_of(full_mask(n), r.0, n) + dist(graph@, r.0 as int, 0),
            forall|l: usize|
                1 <= l < n ==> r.1 <= #[trigger] self.cost_of(full_mask(n), l, n) + dist(
                    graph@,
                    l as int,
                    0,
                ),
            forall|l: usize|
                1 <= l < r.0 ==> r.1 < #[trigger] self.cost_of(full_mask(n), l, n) + dist(
                    graph@,
                    l as int,
                    0,
                ),
    {
        proof {
            lemma_full_mask(n, 0);
        }
        let full = ((1usize << n) - 1) ^ 1;
        let mut length: u128 = UNREACHED;
        let mut last_city: usize = 0;
        let mut i: usize = 1;
        while i < n
            invariant
                1 <= i <= n,
                2 <= n <= 20,
                self.wf(n),
                is_square(graph@),
                n <= graph@.len(),
                full == full_mask(n),
                self.filled(n as nat, n, graph@),
                i > 1 ==> 1 <= last_city < i && length == self.cost_of(full, last_city, n) + dist(
                    graph@,
                    last_city as int,
                    0,
                ),
                i == 1 ==> length == UNREACHED,
                forall|l: usize|
                    1 <= l < i ==> length <= #[trigger] self.cost_of(full, l, n) + dist(
                        graph@,
                        l as int,
                        0,
                    ),
                forall|l: usize|
                    1 <= l < last_city ==> length < #[trigger] self.cost_of(full, l, n) + dist(
                        graph@,
                        l as int,
                        0,
                    ),
            decreases n - i,
        {
            proof {
                lemma_full_mask(n, i);
                lemma_full_mask(n, 0);
                lemma_card_limit(full, n);
                assert(is_state(full, i, n));
                assert(self.solved(full, i, n, graph@));
                lemma_slot_in_table(full, i, n);
                assert(card(full, n as nat) * u64::MAX <= 19 * u64::MAX) by (nonlinear_arith)
                    requires
                        card(full, n as nat) <= 19,
                ;
            }
            let reached = self.cost[(full / 2) * n + i];
            if reached != UNREACHED {
                let total = reached + graph[i][0] as u128;
                if total < length {
                    length = total;
                    last_city = i;
                }
            }
            i = i + 1;
        }
        (last_city, length)
    }

    /// Walks the recorded predecessors back from `last_city` in the set of
    /// all cities: city 0 first, then `last_city`, then the city before
    /// it, and so on to the city the path entered first.
    pub fn walk_back(&self, graph: &[Vec<u64>], n: usize, last_city: usize) -> (tour: Vec<usize>)
        requires
            self.wf(n),
            n >= 2,
            1 <= last_city < n,
            self.filled(n as nat, n, graph@),
            forall|l: usize|
                1 <= l < n ==> self.cost_of(full_mask(n), last_city, n) + dist(
                    graph@,
                    last_city as int,
                    0,
                ) <= #[trigger] self.cost_of(full_mask(n), l, n) + dist(graph@, l as int, 0),
            forall|l: usize|
                1 <= l < last_city ==> self.cost_of(full_mask(n), last_city, n) + dist(
                    graph@,
                    last_city as int,
                    0,
                ) < #[trigger] self.cost_of(full_mask(n), l, n) + dist(graph@, l as int, 0),
        ensures
            is_tour(tour@, n as int),
            tour@[0] == 0,
            tour_length(tour@.reverse(), graph@) == self.cost_of(full_mask(n), last_city, n) + dist(
                graph@,
                last_city as int,
                0,
            ),
            forall|other: Seq<usize>| #[trigger]
                reads_backward_as(
                    other,
                    n,
                    graph@,
                    self.cost_of(full_mask(n), last_city, n) + dist(graph@, last_city as int, 0),
                ) ==> comes_no_later(tour@, other),
    {
        proof {
            lemma_full_mask(n, 0);
            lemma_full_mask(n, last_city);
            assert forall|c: usize| 1 <= c < n implies has_city(full_mask(n), c) by {
                lemma_full_mask(n, c);
            }
            lemma_card_limit(full_mask(n), n);
        }
        let full = ((1usize << n) - 1) ^ 1;
        let mut tour: Vec<usize> = Vec::new();
        tour.push(0);
        let mut mask = full;
        let mut current = last_city;
        let ghost total = self.cost_of(full, last_city, n) as int;
        let ghost length = total + dist(graph@, last_city as int, 0);
        let ghost mut ahead: Seq<usize> = Seq::empty();
        proof {
            assert(seq![current] + ahead =~= seq![current]);
            assert(path_length(seq![current], graph@) == 0);
            assert(tour@ =~= seq![0usize]);
            assert forall|other: Seq<usize>| #[trigger]
                reads_backward_as(other, n, graph@, length) implies on_track(
                tour@,
                other,
                current,
                self.cost_of(mask, current, n) as int,
                graph@,
            ) by {
                self.lemma_track_start(other, n, graph@, last_city, length);
            }
        }
        while current != 0
            invariant
                self.wf(n),
                2 <= n <= 20,
                1 <= last_city < n,
                self.filled(n as nat, n, graph@),
                valid_mask(mask, n),
                current == 0 ==> mask == 0,
                current != 0 ==> is_state(mask, current, n),
                tour@.len() == ahead.len() + 1,
                tour@[0] == 0,
                tour@.len() >= 2 ==> tour@[1] == last_city,
                tour@.len() == 1 ==> current == last_city,
                forall|k: int| 0 <= k < ahead.len() ==> ahead[k] == tour@[tour@.len() - 1 - k],
                forall|k: int|
                    1 <= k < tour@.len() ==> 1 <= #[trigger] tour@[k] < n && !has_city(
                        mask,
                        tour@[k],
                    ),
                no_repeats(tour@),
                forall|c: usize| 1 <= c < n && !has_city(mask, c) ==> tour@.contains(c),
                tour@.len() - 1 + card(mask, n as nat) == n - 1,
                current != 0 ==> self.cost_of(mask, current, n) + path_length(
                    seq![current] + ahead,
                    graph@,
                ) == total,
                current == 0 ==> path_length(seq![0usize] + ahead, graph@) == total,
                length == total + dist(graph@, last_city as int, 0),
                forall|other: Seq<usize>| #[trigger]
                    reads_backward_as(other, n, graph@, length) ==> on_track(
                        tour@,
                        other,
                        current,
                        self.cost_of(mask, current, n) as int,
                        graph@,
                    ),
            decreases card(mask, n as nat),
        {
            proof {
                lemma_state_card(mask, current, n);
                assert(self.solved(mask, current, n, graph@));
                lemma_slot_in_table(mask, current, n);
            }
            let ghost before = tour@;
            let ghost reached = seq![current] + ahead;
            tour.push(current);
            let prev = self.parent[(mask / 2) * n + current];
            let rest = mask ^ (1usize << current);
            proof {
                assert forall|c: usize| 1 <= c < n && !has_city(rest, c) implies tour@.contains(
                    c,
                ) by {
                    if c == current {
                        assert(tour@[before.len() as int] == c);
                    } else {
                        assert(!has_city(mask, c));
                        let k = choose|k: int| 0 <= k < before.len() && before[k] == c;
                        assert(tour@[k] == c);
                    }
                }
                assert forall|k: int| 0 <= k < reached.len() implies reached[k] == tour@[tour@.len()
                    - 1 - k] by {
                    if k > 0 {
                        assert(reached[k] == ahead[k - 1]);
                    }
                }
                assert(seq![prev] + reached =~= seq![prev] + (seq![current] + ahead));
                lemma_path_length_concat(seq![prev], reached, graph@);
                assert(path_length(seq![prev], graph@) == 0);
                if rest != 0 {
                    assert(is_state(rest, prev, n));
                }
                ahead = reached;
                assert(before.len() < n) by {
                    lemma_state_card(mask, current, n);
                }
                assert forall|other: Seq<usize>| #[trigger]
                    reads_backward_as(other, n, graph@, length) implies on_track(
                    tour@,
                    other,
                    prev,
                    self.cost_of(rest, prev, n) as int,
                    graph@,
                ) by {
                    self.lemma_track_step(other, before, current, mask, n, graph@, length);
                    assert(tour@ == before.push(current));
                }
            }
            mask = rest;
            current = prev;
        }
        proof {
            let forward = seq![0usize] + ahead;
            assert(forward.subrange(1, forward.len() as int) =~= ahead);
            assert(forward.subrange(0, 1) =~= seq![0usize]);
            assert(tour@.reverse() =~= ahead + seq![0usize]);
            lemma_tour_length_rotate(forward, 1, graph@);
            lemma_empty_mask(n, 0);
            assert forall|c: usize| 0 <= c < n implies !has_city(0, c) by {
                lemma_empty_mask(n, c);
            }
            lemma_card_stops(0, 0, n);
            assert(forward.last() == last_city);
            assert forall|other: Seq<usize>| #[trigger]
                reads_backward_as(other, n, graph@, length) implies comes_no_later(
                tour@,
                other,
            ) by {
                assert(on_track(tour@, other, current, self.cost_of(mask, current, n) as int, graph@));
                if other.take(tour@.len() as int) == tour@ {
                    assert(other.take(n as int) =~= other);
                }
            }
        }
        tour
    }
}

/// City 0 belongs to no set of cities of `[1, n)`.
pub proof fn lemma_valid_mask_no_zero(mask: usize, n: usize)
    requires
        valid_mask(mask, n),
    ensures
        !has_city(mask, 0),
{
    assert(mask & (1usize << 0usize) == 0) by (bit_vector)
        requires
            mask & 1 == 0,
    ;
}

/// The set of one city is a state, of one member.
pub proof fn lemma_single_state(city: usize, n: usize)
    requires
        1 <= city < n <= 20,
    ensures
        is_state((1usize << city), city, n),
        card((1usize << city), n as nat) == 1,
        ((1usize << city) ^ (1usize << city)) == 0,
{
    lemma_empty_mask(n, 0);
    lemma_toggle_valid(0, city, n);
    lemma_toggle(0, city, city);
    assert(((1usize << city) ^ (1usize << city)) == 0) by (bit_vector);
    lemma_state_card((1usize << city), city, n);
}

} // verus!
