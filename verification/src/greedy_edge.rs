//! The greedy-edge construction: the edges are taken shortest first, and
//! an edge is kept if both its cities have fewer than two kept edges and
//! it closes no cycle short of the full tour. The kept edges form chains
//! that grow together into one tour.

use vstd::prelude::*;
use crate::chains::{
    chain_lists, is_joined, lemma_close_chain_lists, lemma_join_chain_lists, lemma_reflect_closed,
    lemma_reverse_chain_lists, lemma_rotate_closed, lemma_untouched_chain_lists, lists, lists_at,
    reflected, rotated,
};
use crate::sorting::{is_rearrangement, sort_triples};
use crate::tour::{
    dist, is_square, is_tour, lemma_covering_length, lemma_no_repeats_bounds_length,
    lemma_tour_visits_every_city, no_repeats,
};
use crate::union_find::UnionFind;

verus! {

/// The kept edges: which cities they join, and the chains they form.
pub struct Links {
    pub sets: UnionFind,
    pub adj: Vec<Vec<usize>>,
    pub degree: Vec<usize>,
    pub edge_count: usize,
    /// For the representative of each set, the chain that the set forms.
    pub chain: Ghost<Seq<Seq<usize>>>,
    /// The representatives of the sets.
    pub roots: Ghost<Seq<usize>>,
    /// Whether the one chain left has been closed to a tour.
    pub closed: Ghost<bool>,
}

impl Links {
    /// The number of cities.
    pub open spec fn n(&self) -> nat {
        self.adj@.len()
    }

    /// The representative of the set of `v`.
    pub open spec fn rep(&self, v: int) -> usize {
        self.sets.rep@[v]
    }

    /// The chain in which `v` stands.
    pub open spec fn chain_of(&self, v: int) -> Seq<usize> {
        self.chain@[self.rep(v) as int]
    }

    /// The city has as many kept edges as its list says and stands in the
    /// chain of its set.
    pub open spec fn city_ok(&self, v: int) -> bool {
        &&& self.degree@[v] == self.adj@[v]@.len()
        &&& self.rep(v) < self.n()
        &&& self.chain_of(v).contains(v as usize)
    }

    /// The chain of the representative `r` holds the cities of its set,
    /// each once, each joined to its neighbours in the chain.
    pub open spec fn root_ok(&self, r: int) -> bool {
        let c = self.chain@[r];
        &&& c.len() >= 1
        &&& no_repeats(c)
        &&& forall|p: int|
            0 <= p < c.len() ==> (#[trigger] c[p]) < self.n() && self.rep(c[p] as int) == r
        &&& chain_lists(self.adj@, c, self.closed@)
    }

    /// The kept edges form chains, one for each set, and the count of
    /// edges is the count of cities less the count of chains, or the count
    /// of cities once the last chain is closed.
    pub open spec fn wf(&self) -> bool {
        &&& self.sets.wf()
        &&& self.n() <= usize::MAX
        &&& self.sets.size() == self.n()
        &&& self.degree@.len() == self.n()
        &&& self.chain@.len() == self.n()
        &&& forall|v: int| 0 <= v < self.n() ==> #[trigger] self.city_ok(v)
        &&& forall|r: int| 0 <= r < self.n() && self.rep(r) == r ==> #[trigger] self.root_ok(r)
        &&& no_repeats(self.roots@)
        &&& forall|k: int|
            0 <= k < self.roots@.len() ==> (#[trigger] self.roots@[k]) < self.n() && self.rep(
                self.roots@[k] as int,
            ) == self.roots@[k]
        &&& forall|v: int| 0 <= v < self.n() ==> self.roots@.contains(#[trigger] self.rep(v))
        &&& !self.closed@ ==> self.edge_count + self.roots@.len() == self.n()
        &&& self.closed@ ==> self.edge_count == self.n() && self.n() >= 2 && self.roots@.len() == 1
            && self.chain@[self.roots@[0] as int].len() == self.n()
    }

    /// Nothing remains to decide about the pair: the tour is closed, or
    /// one of the two cities has its two edges, or the two are the ends of
    /// one chain that an edge between them would close too early.
    pub open spec fn settled(&self, a: int, b: int) -> bool {
        ||| self.closed@
        ||| self.degree@[a] == 2
        ||| self.degree@[b] == 2
        ||| {
            let c = self.chain_of(a);
            &&& self.rep(a) == self.rep(b)
            &&& ((c[0] == a && c.last() == b) || (c[0] == b && c.last() == a))
            &&& (c.len() < self.n() || c.len() == 2)
        }
    }

    /// No edges kept: every city a chain of its own.
    pub fn new(n: usize) -> (links: Links)
        ensures
            links.wf(),
            links.n() == n,
            links.edge_count == 0,
            !links.closed@,
            forall|v: int| 0 <= v < n ==> (#[trigger] links.adj@[v])@.len() == 0,
            forall|v: int| 0 <= v < n ==> #[trigger] links.rep(v) == v,
    {
        let sets = UnionFind::new(n);
        let mut adj: Vec<Vec<usize>> = Vec::new();
        let mut degree: Vec<usize> = Vec::new();
        let mut i: usize = 0;
        while i < n
            invariant
                i <= n,
                adj@.len() == i,
                degree@.len() == i,
                forall|v: int| 0 <= v < i ==> (#[trigger] adj@[v])@.len() == 0 && degree@[v] == 0,
            decreases n - i,
        {
            adj.push(Vec::new());
            degree.push(0);
            i = i + 1;
        }
        let links = Links {
            sets,
            adj,
            degree,
            edge_count: 0,
            chain: Ghost(Seq::new(n as nat, |v: int| seq![v as usize])),
            roots: Ghost(Seq::new(n as nat, |v: int| v as usize)),
            closed: Ghost(false),
        };
        proof {
            assert forall|v: int| 0 <= v < n implies #[trigger] links.city_ok(v) by {
                assert(links.sets.rep_of(v) == v);
                assert(links.chain_of(v)[0] == v);
            }
            assert forall|r: int| 0 <= r < n && links.rep(r) == r implies #[trigger] links.root_ok(
                r,
            ) by {
                let c = links.chain@[r];
                assert(links.sets.rep_of(r) == r);
                assert forall|p: int| 0 <= p < c.len() implies #[trigger] lists_at(
                    links.adj@,
                    c,
                    p,
                    false,
                ) by {}
            }
            assert forall|v: int| 0 <= v < n implies links.roots@.contains(
                #[trigger] links.rep(v),
            ) by {
                assert(links.sets.rep_of(v) == v);
                assert(links.roots@[v] == v);
            }
            assert forall|k: int| 0 <= k < links.roots@.len() implies (#[trigger] links.roots@[k])
                < links.n() && links.rep(links.roots@[k] as int) == links.roots@[k] by {
                assert(links.sets.rep_of(k) == k);
            }
            assert forall|v: int| 0 <= v < n implies #[trigger] links.rep(v) == v by {
                assert(links.sets.rep_of(v) == v);
            }
        }
        links
    }
}

/// The chain `chain` turned so that `city`, one of its ends, comes last.
pub open spec fn ending_with(chain: Seq<usize>, city: usize) -> Seq<usize> {
    if chain.last() == city {
        chain
    } else {
        chain.reverse()
    }
}

/// The chain `chain` turned so that `city`, one of its ends, comes first.
pub open spec fn starting_with(chain: Seq<usize>, city: usize) -> Seq<usize> {
    if chain[0] == city {
        chain
    } else {
        chain.reverse()
    }
}

/// The chain that an edge from `u` to `v` makes of their two chains.
pub open spec fn joined_chain(links: Links, u: usize, v: usize) -> Seq<usize> {
    ending_with(links.chain_of(u as int), u) + starting_with(links.chain_of(v as int), v)
}

/// What keeping the edge from `u` to `v` changes, the chains aside.
pub open spec fn is_linked(before: Links, after: Links, u: usize, v: usize) -> bool {
    &&& after.n() == before.n()
    &&& is_joined(before.adj@, after.adj@, u, v)
    &&& after.degree@ == before.degree@.update(u as int, (before.degree@[u as int] + 1) as usize).update(
        v as int,
        (before.degree@[v as int] + 1) as usize,
    )
    &&& after.sets.wf()
    &&& after.sets.size() == before.sets.size()
    &&& forall|w: int|
        0 <= w < before.n() ==> #[trigger] after.rep(w) == if before.rep(w) == before.rep(u as int) {
            before.rep(v as int)
        } else {
            before.rep(w)
        }
    &&& after.edge_count == before.edge_count + 1
}

/// A city with fewer than two kept edges stands at an end of its chain,
/// and alone in it if it has none.
proof fn lemma_end_of_chain(links: Links, w: usize)
    requires
        links.wf(),
        !links.closed@,
        w < links.n(),
        links.degree@[w as int] < 2,
    ensures
        links.chain_of(w as int).len() >= 1,
        links.chain_of(w as int)[0] == w || links.chain_of(w as int).last() == w,
        links.degree@[w as int] == 0 <==> links.chain_of(w as int).len() == 1,
        links.degree@[w as int] == 0 ==> links.chain_of(w as int)[0] == w,
{
    assert(links.city_ok(w as int));
    let r = links.rep(w as int);
    assert(links.sets.link_ok(w as int));
    assert(links.root_ok(r as int));
    let c = links.chain@[r as int];
    let p = choose|p: int| 0 <= p < c.len() && c[p] == w;
    assert(lists_at(links.adj@, c, p, false));
}

/// The cities of a chain are the cities of its set.
proof fn lemma_chain_members(links: Links, w: usize, x: usize)
    requires
        links.wf(),
        w < links.n(),
        x < links.n(),
    ensures
        links.chain_of(w as int).contains(x) <==> links.rep(x as int) == links.rep(w as int),
        links.rep(links.rep(w as int) as int) == links.rep(w as int),
        links.root_ok(links.rep(w as int) as int),
{
    assert(links.city_ok(w as int));
    assert(links.city_ok(x as int));
    assert(links.sets.link_ok(w as int));
    assert(links.sets.link_ok(x as int));
    let r = links.rep(w as int);
    assert(links.root_ok(r as int));
    let c = links.chain@[r as int];
    if c.contains(x) {
        let p = choose|p: int| 0 <= p < c.len() && c[p] == x;
        assert(links.rep(c[p] as int) == r);
    }
}

/// A chain turned around holds the same cities.
proof fn lemma_reverse_members(chain: Seq<usize>, x: usize)
    ensures
        chain.reverse().contains(x) <==> chain.contains(x),
        chain.reverse().len() == chain.len(),
        no_repeats(chain) ==> no_repeats(chain.reverse()),
{
    let back = chain.reverse();
    if chain.contains(x) {
        let p = choose|p: int| 0 <= p < chain.len() && chain[p] == x;
        assert(back[chain.len() - 1 - p] == x);
    }
    if back.contains(x) {
        let p = choose|p: int| 0 <= p < back.len() && back[p] == x;
        assert(chain[chain.len() - 1 - p] == x);
    }
    if no_repeats(chain) {
        assert forall|a: int, b: int| 0 <= a < b < back.len() implies back[a] != back[b] by {
            assert(chain[chain.len() - 1 - b] != chain[chain.len() - 1 - a]);
        }
    }
}

/// If more than one chain is left, no chain holds all cities; if one is
/// left, it holds them all.
proof fn lemma_chain_sizes(links: Links, w: usize)
    requires
        links.wf(),
        w < links.n(),
    ensures
        links.chain_of(w as int).len() <= links.n(),
        links.roots@.len() >= 1,
        links.roots@.len() >= 2 ==> links.chain_of(w as int).len() < links.n(),
        links.roots@.len() == 1 ==> links.chain_of(w as int).len() == links.n(),
{
    let n = links.n() as int;
    let r = links.rep(w as int);
    lemma_chain_members(links, w, w);
    let c = links.chain@[r as int];
    assert(links.root_ok(r as int));
    lemma_no_repeats_bounds_length(c, n);
    assert(links.roots@.contains(links.rep(w as int)));
    if links.roots@.len() >= 2 {
        let k = choose|k: int| 0 <= k < links.roots@.len() && links.roots@[k] == r;
        let other = if k == 0 { links.roots@[1] } else { links.roots@[0] };
        assert(other != r) by {
            if k == 0 {
                assert(links.roots@[0] != links.roots@[1]);
            } else {
                assert(links.roots@[0] != links.roots@[k]);
            }
        }
        assert(links.rep(other as int) == other);
        lemma_chain_members(links, w, other);
        if c.len() == n {
            lemma_tour_visits_every_city(c, n, other);
        }
    } else {
        assert forall|x: usize| x < n implies c.contains(x) by {
            assert(links.roots@.contains(links.rep(x as int)));
            let kx = choose|kx: int|
                0 <= kx < links.roots@.len() && links.roots@[kx] == links.rep(x as int);
            let kw = choose|kw: int| 0 <= kw < links.roots@.len() && links.roots@[kw] == r;
            lemma_chain_members(links, w, x);
        }
        lemma_covering_length(c, n);
    }
}

/// Keeping an edge between the ends of two different chains makes one
/// chain of them, and settles every pair that was settled.
proof fn lemma_link_merge(before: Links, after: Links, u: usize, v: usize)
    requires
        before.wf(),
        !before.closed@,
        u < before.n(),
        v < before.n(),
        before.degree@[u as int] < 2,
        before.degree@[v as int] < 2,
        before.rep(u as int) != before.rep(v as int),
        is_linked(before, after, u, v),
        after.chain@ == before.chain@.update(before.rep(v as int) as int, joined_chain(before, u, v)),
        before.roots@.contains(before.rep(u as int)),
        after.roots@ == before.roots@.remove(before.roots@.index_of(before.rep(u as int))),
        !after.closed@,
    ensures
        after.wf(),
        after.settled(u as int, v as int),
        forall|a: int, b: int|
            0 <= a < before.n() && 0 <= b < before.n() && a != b && #[trigger] before.settled(a, b)
                ==> after.settled(a, b),
{
    let n = before.n() as int;
    let ru = before.rep(u as int);
    let rv = before.rep(v as int);
    let a_chain = before.chain_of(u as int);
    let b_chain = before.chain_of(v as int);
    let first = ending_with(a_chain, u);
    let second = starting_with(b_chain, v);
    let whole = first + second;
    lemma_end_of_chain(before, u);
    lemma_end_of_chain(before, v);
    lemma_chain_members(before, u, u);
    lemma_chain_members(before, v, v);
    assert(before.root_ok(ru as int));
    assert(before.root_ok(rv as int));
    lemma_reverse_members(a_chain, u);
    lemma_reverse_members(b_chain, v);
    assert(first.last() == u) by {
        if a_chain.last() != u {
            assert(a_chain.reverse()[a_chain.len() - 1] == a_chain[0]);
        }
    }
    assert(second[0] == v) by {
        if b_chain[0] != v {
            assert(b_chain.reverse()[0] == b_chain[b_chain.len() - 1]);
        }
    }
    // The two chains hold the cities of the two sets, and share none.
    assert forall|x: usize| x < n implies (first.contains(x) <==> before.rep(x as int) == ru) && (
    second.contains(x) <==> before.rep(x as int) == rv) by {
        lemma_chain_members(before, u, x);
        lemma_chain_members(before, v, x);
        lemma_reverse_members(a_chain, x);
        lemma_reverse_members(b_chain, x);
    }
    assert forall|p: int| 0 <= p < first.len() implies (#[trigger] first[p]) < n && before.rep(
        first[p] as int,
    ) == ru by {
        if a_chain.last() == u {
            assert(first[p] == a_chain[p]);
        } else {
            assert(first[p] == a_chain[a_chain.len() - 1 - p]);
        }
    }
    assert forall|p: int| 0 <= p < second.len() implies (#[trigger] second[p]) < n && before.rep(
        second[p] as int,
    ) == rv by {
        if b_chain[0] == v {
            assert(second[p] == b_chain[p]);
        } else {
            assert(second[p] == b_chain[b_chain.len() - 1 - p]);
        }
    }
    assert(no_repeats(whole)) by {
        assert forall|i: int, j: int| 0 <= i < j < whole.len() implies whole[i] != whole[j] by {
            if j < first.len() {
                assert(first[i] != first[j]);
            } else if i >= first.len() {
                assert(second[i - first.len()] != second[j - first.len()]);
            } else {
                assert(before.rep(first[i] as int) == ru);
                assert(before.rep(second[j - first.len()] as int) == rv);
            }
        }
    }
    assert(chain_lists(before.adj@, first, false)) by {
        if a_chain.last() != u {
            lemma_reverse_chain_lists(before.adj@, a_chain);
        }
    }
    assert(chain_lists(before.adj@, second, false)) by {
        if b_chain[0] != v {
            lemma_reverse_chain_lists(before.adj@, b_chain);
        }
    }
    lemma_join_chain_lists(before.adj@, after.adj@, first, second, u, v);
    assert(after.chain@[rv as int] == whole);
    assert(after.rep(rv as int) == rv);
    // Every city stands in the chain of its set.
    assert forall|w: int| 0 <= w < n implies #[trigger] after.city_ok(w) by {
        assert(before.city_ok(w));
        assert(after.rep(w) == if before.rep(w) == ru { rv } else { before.rep(w) });
        if before.rep(w) == ru {
            assert(first.contains(w as usize));
            let p = choose|p: int| 0 <= p < first.len() && first[p] == w as usize;
            assert(whole[p] == w as usize);
        } else if before.rep(w) == rv {
            assert(second.contains(w as usize));
            let p = choose|p: int| 0 <= p < second.len() && second[p] == w as usize;
            assert(whole[first.len() + p] == w as usize);
        }
    }
    // Every chain is in order.
    assert forall|r: int| 0 <= r < n && after.rep(r) == r implies #[trigger] after.root_ok(r) by {
        assert(after.rep(r) == if before.rep(r) == ru { rv } else { before.rep(r) });
        if r == rv {
            assert forall|p: int| 0 <= p < whole.len() implies (#[trigger] whole[p]) < n
                && after.rep(whole[p] as int) == rv by {
                if p < first.len() {
                    assert(whole[p] == first[p]);
                    assert(after.rep(first[p] as int) == rv);
                } else {
                    assert(whole[p] == second[p - first.len()]);
                    assert(after.rep(second[p - first.len()] as int) == rv);
                }
            }
        } else {
            assert(before.rep(r) == r);
            assert(before.root_ok(r));
            let c = before.chain@[r];
            assert(after.chain@[r] == c);
            lemma_chain_members(before, r as usize, u);
            lemma_chain_members(before, r as usize, v);
            lemma_untouched_chain_lists(before.adj@, after.adj@, c, u, v, false);
            assert forall|p: int| 0 <= p < c.len() implies (#[trigger] c[p]) < n && after.rep(
                c[p] as int,
            ) == r by {
                assert(before.rep(c[p] as int) == r);
                assert(after.rep(c[p] as int) == if before.rep(c[p] as int) == ru {
                    rv
                } else {
                    before.rep(c[p] as int)
                });
            }
        }
    }
    // The representatives: those of before, less the one of `u`.
    let gone = before.roots@.index_of(ru);
    assert(0 <= gone < before.roots@.len() && before.roots@[gone] == ru);
    assert(no_repeats(after.roots@)) by {
        assert forall|i: int, j: int| 0 <= i < j < after.roots@.len() implies after.roots@[i]
            != after.roots@[j] by {
            let oi = if i < gone { i } else { i + 1 };
            let oj = if j < gone { j } else { j + 1 };
            assert(after.roots@[i] == before.roots@[oi]);
            assert(after.roots@[j] == before.roots@[oj]);
        }
    }
    assert forall|k: int| 0 <= k < after.roots@.len() implies (#[trigger] after.roots@[k]) < n
        && after.rep(after.roots@[k] as int) == after.roots@[k] by {
        let ok = if k < gone { k } else { k + 1 };
        assert(after.roots@[k] == before.roots@[ok]);
        assert(before.roots@[ok] != before.roots@[gone]) by {
            if ok < gone {
                assert(before.roots@[ok] != before.roots@[gone]);
            } else {
                assert(before.roots@[gone] != before.roots@[ok]);
            }
        }
        let r = before.roots@[ok];
        assert(after.rep(r as int) == if before.rep(r as int) == ru { rv } else { before.rep(r as int) });
    }
    assert forall|w: int| 0 <= w < n implies after.roots@.contains(#[trigger] after.rep(w)) by {
        assert(after.rep(w) == if before.rep(w) == ru { rv } else { before.rep(w) });
        let r = after.rep(w);
        let target = if before.rep(w) == ru { v as int } else { w };
        assert(before.roots@.contains(before.rep(target)));
        let k = choose|k: int| 0 <= k < before.roots@.len() && before.roots@[k] == r;
        assert(k != gone);
        if k < gone {
            assert(after.roots@[k] == r);
        } else {
            assert(after.roots@[k - 1] == r);
        }
    }
    assert(after.wf());
    // The pair itself.
    if after.degree@[u as int] != 2 && after.degree@[v as int] != 2 {
        assert(a_chain.len() == 1 && b_chain.len() == 1);
        assert(whole.len() == 2);
        assert(whole[0] == u && whole[1] == v);
        assert(after.chain_of(u as int) == whole);
    }
    // The pairs settled before.
    assert forall|a: int, b: int|
        0 <= a < n && 0 <= b < n && a != b && #[trigger] before.settled(a, b) implies after.settled(
        a,
        b,
    ) by {
        if before.degree@[a] == 2 || before.degree@[b] == 2 {
        } else {
            let c = before.chain_of(a);
            lemma_chain_members(before, a as usize, u);
            lemma_chain_members(before, a as usize, v);
            lemma_chain_members(before, a as usize, a as usize);
            assert(c.len() >= 2) by {
                if c.len() < 2 {
                    assert(c[0] == c.last());
                }
            }
            if c.contains(u) {
                // `u` is an end of this chain of two or more, so it had one edge.
                assert(before.chain_of(u as int) == c);
                assert(u == a || u == b);
            } else if c.contains(v) {
                assert(before.chain_of(v as int) == c);
                assert(v == a || v == b);
            } else {
                assert(after.rep(a) == before.rep(a));
                assert(after.rep(b) == before.rep(b));
                assert(after.chain_of(a) == c);
            }
        }
    }
}

/// Keeping an edge between the two ends of the one chain left closes the
/// tour.
proof fn lemma_link_close(before: Links, after: Links, u: usize, v: usize)
    requires
        before.wf(),
        !before.closed@,
        u < before.n(),
        v < before.n(),
        u != v,
        before.degree@[u as int] < 2,
        before.degree@[v as int] < 2,
        before.rep(u as int) == before.rep(v as int),
        before.edge_count == before.n() - 1,
        is_linked(before, after, u, v),
        after.chain@ == before.chain@,
        after.roots@ == before.roots@,
        after.closed@,
    ensures
        after.wf(),
{
    let n = before.n() as int;
    let r = before.rep(u as int);
    let c = before.chain_of(u as int);
    lemma_end_of_chain(before, u);
    lemma_end_of_chain(before, v);
    lemma_chain_members(before, u, u);
    lemma_chain_members(before, u, v);
    lemma_chain_sizes(before, u);
    assert(before.root_ok(r as int));
    assert((c[0] == u && c.last() == v) || (c[0] == v && c.last() == u)) by {
        if c[0] == u && c[0] == v {
        }
        if c.last() == u && c.last() == v {
        }
    }
    lemma_close_chain_lists(before.adj@, after.adj@, c, u, v);
    assert forall|w: int| 0 <= w < n implies #[trigger] after.rep(w) == before.rep(w) by {
        assert(after.rep(w) == if before.rep(w) == before.rep(u as int) {
            before.rep(v as int)
        } else {
            before.rep(w)
        });
    }
    assert forall|w: int| 0 <= w < n implies #[trigger] after.city_ok(w) by {
        assert(before.city_ok(w));
        assert(after.rep(w) == before.rep(w));
    }
    assert(before.roots@.contains(r));
    let k = choose|k: int| 0 <= k < before.roots@.len() && before.roots@[k] == r;
    assert(k == 0);
    assert forall|q: int| 0 <= q < n && after.rep(q) == q implies #[trigger] after.root_ok(q) by {
        assert(after.rep(q) == before.rep(q));
        assert(before.roots@.contains(before.rep(q)));
        let kq = choose|kq: int| 0 <= kq < before.roots@.len() && before.roots@[kq] == q as usize;
        assert(q == r);
        assert forall|p: int| 0 <= p < c.len() implies (#[trigger] c[p]) < n && after.rep(
            c[p] as int,
        ) == q by {
            assert(before.rep(c[p] as int) == r);
            assert(after.rep(c[p] as int) == before.rep(c[p] as int));
        }
    }
    assert forall|w: int| 0 <= w < n implies after.roots@.contains(#[trigger] after.rep(w)) by {
        assert(after.rep(w) == before.rep(w));
        assert(before.roots@.contains(before.rep(w)));
    }
    assert forall|k: int| 0 <= k < after.roots@.len() implies (#[trigger] after.roots@[k]) < n
        && after.rep(after.roots@[k] as int) == after.roots@[k] by {
        assert(after.rep(after.roots@[k] as int) == before.rep(before.roots@[k] as int));
    }
}

/// No city has more than two kept edges.
proof fn lemma_degree_limit(links: Links, w: usize)
    requires
        links.wf(),
        w < links.n(),
    ensures
        links.degree@[w as int] <= 2,
{
    assert(links.city_ok(w as int));
    lemma_chain_members(links, w, w);
    let r = links.rep(w as int);
    assert(links.root_ok(r as int));
    let c = links.chain@[r as int];
    let p = choose|p: int| 0 <= p < c.len() && c[p] == w;
    assert(lists_at(links.adj@, c, p, links.closed@));
}

/// An edge between the two ends of a chain that is not yet the whole
/// tour is settled: it would close a cycle too early.
proof fn lemma_skipped_settled(links: Links, u: usize, v: usize)
    requires
        links.wf(),
        u < links.n(),
        v < links.n(),
        u != v,
        links.degree@[u as int] < 2,
        links.degree@[v as int] < 2,
        links.rep(u as int) == links.rep(v as int),
        links.edge_count + 1 < links.n(),
    ensures
        links.settled(u as int, v as int),
{
    lemma_end_of_chain(links, u);
    lemma_end_of_chain(links, v);
    lemma_chain_sizes(links, u);
    lemma_chain_members(links, u, u);
    assert(links.root_ok(links.rep(u as int) as int));
    let c = links.chain_of(u as int);
    if c[0] == u && c[0] == v {
    }
    if c.last() == u && c.last() == v {
    }
}

impl Links {
    /// Keeps the edge between `u` and `v`.
    pub fn link(&mut self, u: usize, v: usize)
        requires
            old(self).wf(),
            u < old(self).n(),
            v < old(self).n(),
            u != v,
            old(self).degree@[u as int] < 2,
            old(self).degree@[v as int] < 2,
            old(self).edge_count < old(self).n(),
            old(self).rep(u as int) != old(self).rep(v as int) || old(self).edge_count + 1 == old(
                self,
            ).n(),
        ensures
            final(self).wf(),
            final(self).n() == old(self).n(),
            final(self).edge_count == old(self).edge_count + 1,
            is_linked(*old(self), *final(self), u, v),
            final(self).settled(u as int, v as int),
            forall|a: int, b: int|
                0 <= a < old(self).n() && 0 <= b < old(self).n() && a != b && #[trigger] old(
                    self,
                ).settled(a, b) ==> final(self).settled(a, b),
    {
        let ghost before = *self;
        proof {
            assert(self.city_ok(u as int));
            assert(self.city_ok(v as int));
        }
        self.adj[u].push(v);
        self.adj[v].push(u);
        let du = self.degree[u];
        self.degree.set(u, du + 1);
        let dv = self.degree[v];
        self.degree.set(v, dv + 1);
        proof {
            assert(is_joined(before.adj@, self.adj@, u, v));
            assert(self.degree@ == before.degree@.update(
                u as int,
                (before.degree@[u as int] + 1) as usize,
            ).update(v as int, (before.degree@[v as int] + 1) as usize));
        }
        self.sets.union(u, v);
        self.edge_count = self.edge_count + 1;
        proof {
            let ru = before.rep(u as int);
            let rv = before.rep(v as int);
            assert(before.roots@.contains(before.rep(u as int)));
            let joined = self.sets;
            if ru != rv {
                self.chain@ = before.chain@.update(rv as int, joined_chain(before, u, v));
                self.roots@ = before.roots@.remove(before.roots@.index_of(ru));
                assert forall|w: int| 0 <= w < before.n() implies #[trigger] self.rep(w) == if before.rep(
                    w,
                ) == ru {
                    rv
                } else {
                    before.rep(w)
                } by {
                    assert(joined.rep_of(w) == self.rep(w));
                }
                lemma_link_merge(before, *self, u, v);
            } else {
                self.closed@ = true;
                assert forall|w: int| 0 <= w < before.n() implies #[trigger] self.rep(w) == if before.rep(
                    w,
                ) == ru {
                    rv
                } else {
                    before.rep(w)
                } by {
                    assert(joined.rep_of(w) == self.rep(w));
                }
                lemma_link_close(before, *self, u, v);
            }
        }
    }
}

impl Links {
    /// Whether `u` and `v` stand in one chain.
    pub fn same_chain(&mut self, u: usize, v: usize) -> (same: bool)
        requires
            old(self).wf(),
            u < old(self).n(),
            v < old(self).n(),
        ensures
            final(self).wf(),
            same == (old(self).rep(u as int) == old(self).rep(v as int)),
            final(self).sets.rep@ == old(self).sets.rep@,
            final(self).adj == old(self).adj,
            final(self).degree == old(self).degree,
            final(self).edge_count == old(self).edge_count,
            final(self).chain@ == old(self).chain@,
            final(self).roots@ == old(self).roots@,
            final(self).closed@ == old(self).closed@,
    {
        let ghost before = *self;
        let ru = self.sets.find(u);
        let rv = self.sets.find(v);
        proof {
            assert forall|w: int| 0 <= w < self.n() implies #[trigger] self.city_ok(w) by {
                assert(before.city_ok(w));
            }
            assert forall|r: int| 0 <= r < self.n() && self.rep(r) == r implies #[trigger] self.root_ok(
                r,
            ) by {
                assert(before.root_ok(r));
            }
            assert forall|w: int| 0 <= w < self.n() implies self.roots@.contains(
                #[trigger] self.rep(w),
            ) by {
                assert(before.roots@.contains(before.rep(w)));
            }
            assert forall|k: int| 0 <= k < self.roots@.len() implies (#[trigger] self.roots@[k])
                < self.n() && self.rep(self.roots@[k] as int) == self.roots@[k] by {
                assert(before.rep(before.roots@[k] as int) == before.roots@[k]);
            }
        }
        ru == rv
    }
}

/// A walk from city 0 that always goes on to the first city joined to the
/// current one and not yet visited follows `cycle` to its end.
pub open spec fn walkable(adj: Seq<Vec<usize>>, cycle: Seq<usize>) -> bool {
    let n = cycle.len() as int;
    &&& n >= 1
    &&& adj.len() == n
    &&& is_tour(cycle, n)
    &&& cycle[0] == 0
    &&& n >= 2 ==> adj[0]@.len() >= 1 && adj[0]@[0] == cycle[1]
    &&& forall|k: int| 0 <= k < n ==> #[trigger] step_ok(adj, cycle, k)
}

/// The city at position `k` of the cycle is joined to the next city of the
/// cycle, and besides that only to the city before it and to the first.
pub open spec fn step_ok(adj: Seq<Vec<usize>>, cycle: Seq<usize>, k: int) -> bool {
    let n = cycle.len() as int;
    let joined = adj[cycle[k] as int]@;
    &&& k + 1 < n ==> joined.contains(cycle[k + 1])
    &&& forall|i: int|
        0 <= i < joined.len() ==> if k == 0 {
            #[trigger] joined[i] == cycle[n - 1] || (n >= 2 && joined[i] == cycle[1])
        } else {
            joined[i] == cycle[k - 1] || joined[i] == cycle[0] || (k + 1 < n && joined[i] == cycle[k
                + 1])
        }
}

/// A closed chain that starts at city 0 and goes on to the first city
/// joined to it can be walked.
proof fn lemma_closed_walkable(adj: Seq<Vec<usize>>, cycle: Seq<usize>)
    requires
        cycle.len() >= 2,
        adj.len() == cycle.len(),
        is_tour(cycle, cycle.len() as int),
        cycle[0] == 0,
        chain_lists(adj, cycle, true),
        adj[0]@[0] == cycle[1],
    ensures
        walkable(adj, cycle),
{
    let n = cycle.len() as int;
    assert(lists_at(adj, cycle, 0, true));
    assert forall|k: int| 0 <= k < n implies #[trigger] step_ok(adj, cycle, k) by {
        assert(lists_at(adj, cycle, k, true));
        let joined = adj[cycle[k] as int]@;
        if k + 1 < n {
            assert(joined[0] == cycle[k + 1] || joined[1] == cycle[k + 1]);
        }
    }
}

/// A tour read backwards from its first city is a tour.
proof fn lemma_reflected_is_tour(cycle: Seq<usize>, n: int)
    requires
        is_tour(cycle, n),
    ensures
        is_tour(reflected(cycle), n),
{
    let back = reflected(cycle);
    assert forall|k: int| 0 <= k < back.len() implies (#[trigger] back[k]) < n by {
        if k > 0 {
            assert(back[k] == cycle[n - k]);
        }
    }
    assert forall|a: int, b: int| 0 <= a < b < back.len() implies back[a] != back[b] by {
        if a == 0 {
            assert(cycle[0] != cycle[n - b]);
        } else {
            assert(cycle[n - b] != cycle[n - a]);
        }
    }
}

/// Once every pair of cities is settled, the kept edges form a tour that
/// the walk from city 0 follows.
proof fn lemma_walkable(links: Links) -> (cycle: Seq<usize>)
    requires
        links.wf(),
        links.n() >= 1,
        forall|a: int, b: int| 0 <= a < b < links.n() ==> #[trigger] links.settled(a, b),
    ensures
        walkable(links.adj@, cycle),
        cycle.len() == links.n(),
{
    let n = links.n() as int;
    let adj = links.adj@;
    lemma_chain_members(links, 0, 0);
    lemma_chain_sizes(links, 0);
    let r = links.rep(0);
    let c = links.chain@[r as int];
    assert(links.root_ok(r as int));
    if links.closed@ {
        assert(links.roots@.contains(r));
        assert(links.roots@[0] == r);
        assert(is_tour(c, n));
        lemma_tour_visits_every_city(c, n, 0);
        let z = crate::tour::position_of(c, 0);
        let turned = rotated(c, z);
        lemma_rotate_closed(adj, c, z);
        crate::tour::lemma_rotate_is_tour(c, z, n);
        assert(lists_at(adj, turned, 0, true));
        if adj[0]@[0] == turned[1] {
            lemma_closed_walkable(adj, turned);
            turned
        } else {
            let back = reflected(turned);
            lemma_reflect_closed(adj, turned);
            lemma_reflected_is_tour(turned, n);
            assert(back[1] == turned[n - 1]);
            lemma_closed_walkable(adj, back);
            back
        }
    } else if n == 1 {
        let alone = seq![0usize];
        lemma_no_repeats_bounds_length(c, n);
        assert(c[0] == 0);
        assert(lists_at(adj, c, 0, false));
        assert(step_ok(adj, alone, 0));
        alone
    } else {
        // More than one city and no closed tour: two cities are the ends of
        // the chains left, and their pair is settled.
        let a = c[0];
        if links.roots@.len() >= 2 {
            let k = choose|k: int| 0 <= k < links.roots@.len() && links.roots@[k] == r;
            let other = if k == 0 { links.roots@[1] } else { links.roots@[0] };
            assert(other != r) by {
                if k == 0 {
                    assert(links.roots@[0] != links.roots@[1]);
                } else {
                    assert(links.roots@[0] != links.roots@[k]);
                }
            }
            assert(links.rep(other as int) == other);
            assert(links.root_ok(other as int));
            let c2 = links.chain@[other as int];
            let b = c2[0];
            assert(lists_at(adj, c, 0, false));
            assert(lists_at(adj, c2, 0, false));
            assert(links.city_ok(a as int));
            assert(links.city_ok(b as int));
            assert(links.rep(a as int) == r);
            assert(links.rep(b as int) == other);
            if a < b {
                assert(links.settled(a as int, b as int));
            } else {
                assert(links.settled(b as int, a as int));
            }
            assert(false);
            seq![0usize]
        } else {
            let b = c.last();
            assert(a != b);
            assert(lists_at(adj, c, 0, false));
            assert(lists_at(adj, c, n - 1, false));
            assert(links.city_ok(a as int));
            assert(links.city_ok(b as int));
            assert(links.rep(a as int) == r);
            assert(links.rep(b as int) == r);
            if a < b {
                assert(links.settled(a as int, b as int));
            } else {
                assert(links.settled(b as int, a as int));
            }
            assert(n == 2);
            let pair = seq![0usize, 1usize];
            assert(is_tour(c, n));
            assert(step_ok(adj, pair, 0)) by {
                if c[0] == 0 {
                    assert(lists_at(adj, c, 0, false));
                } else {
                    assert(lists_at(adj, c, 1, false));
                }
                assert(adj[0]@[0] == 1);
            }
            assert(step_ok(adj, pair, 1)) by {
                if c[0] == 1 {
                    assert(lists_at(adj, c, 0, false));
                } else {
                    assert(lists_at(adj, c, 1, false));
                }
            }
            pair
        }
    }
}

/// The first city of `joined`, from position `t` on, that `tour` does not visit.
pub open spec fn first_unvisited(joined: Seq<usize>, tour: Seq<usize>, t: int) -> Option<usize>
    decreases joined.len() - t,
{
    if t < 0 || t >= joined.len() {
        None
    } else if !tour.contains(joined[t]) {
        Some(joined[t])
    } else {
        first_unvisited(joined, tour, t + 1)
    }
}

/// The tour of the walk that has visited `tour` and stands before
/// `current`: the walk visits `current` and goes on to the first city
/// joined to it that it has not visited; it ends where there is none, or
/// when it has visited `n` cities.
pub open spec fn walk_on(adj: Seq<Seq<usize>>, tour: Seq<usize>, current: usize, n: int) -> Seq<usize>
    decreases n - tour.len(),
{
    if tour.len() >= n {
        tour
    } else {
        let grown = tour.push(current);
        match first_unvisited(adj[current as int], grown, 0) {
            Some(next) => walk_on(adj, grown, next, n),
            None => grown,
        }
    }
}

/// The lists of the cities joined to each city.
pub open spec fn lists_of(adj: Seq<Vec<usize>>) -> Seq<Seq<usize>> {
    Seq::new(adj.len(), |v: int| adj[v]@)
}

/// Walks from city 0, always on to the first city joined to the current
/// one and not yet visited, until none is left.
fn walk(adj: &Vec<Vec<usize>>, n: usize, Ghost(cycle): Ghost<Seq<usize>>) -> (tour: Vec<usize>)
    requires
        n >= 1,
        cycle.len() == n,
        walkable(adj@, cycle),
    ensures
        tour@ == cycle,
        tour@ == walk_on(lists_of(adj@), Seq::empty(), 0, n as int),
{
    let mut tour: Vec<usize> = Vec::new();
    let mut visited: Vec<bool> = Vec::new();
    let mut i: usize = 0;
    while i < n
        invariant
            i <= n,
            visited@.len() == i,
            forall|c: int| 0 <= c < i ==> !visited@[c],
        decreases n - i,
    {
        visited.push(false);
        i = i + 1;
    }
    let mut current: usize = 0;
    let mut done = false;
    while tour.len() < n && !done
        invariant
            n >= 1,
            cycle.len() == n,
            walkable(adj@, cycle),
            visited@.len() == n,
            tour@.len() <= n,
            tour@ == cycle.take(tour@.len() as int),
            !done ==> tour@.len() < n && current == cycle[tour@.len() as int],
            done ==> tour@.len() == n,
            forall|c: usize| c < n ==> (visited@[c as int] <==> tour@.contains(c)),
            walk_on(lists_of(adj@), Seq::empty(), 0, n as int) == if done {
                tour@
            } else {
                walk_on(lists_of(adj@), tour@, current, n as int)
            },
        decreases n - tour@.len(), if done { 0int } else { 1int },
    {
        let ghost k = tour@.len() as int;
        let ghost before = tour@;
        tour.push(current);
        visited.set(current, true);
        proof {
            assert(tour@ =~= cycle.take(k + 1));
            assert(step_ok(adj@, cycle, k));
            assert forall|c: usize| c < n implies (visited@[c as int] <==> tour@.contains(c)) by {
                if c == current {
                    assert(tour@[k] == c);
                } else if before.contains(c) {
                    let p = choose|p: int| 0 <= p < before.len() && before[p] == c;
                    assert(tour@[p] == c);
                } else if tour@.contains(c) {
                    let p = choose|p: int| 0 <= p < tour@.len() && tour@[p] == c;
                    assert(before[p] == c);
                }
            }
            assert(tour@[0] == cycle[0]);
            if k >= 1 {
                assert(tour@[k - 1] == cycle[k - 1]);
            }
            if k + 1 < n {
                // The next city of the cycle is not yet in the tour.
                if tour@.contains(cycle[k + 1]) {
                    let p = choose|p: int| 0 <= p < tour@.len() && tour@[p] == cycle[k + 1];
                    assert(cycle[p] != cycle[k + 1]);
                }
            }
        }
        let mut next: Option<usize> = None;
        let mut t: usize = 0;
        while t < adj[current].len() && next.is_none()
            invariant
                current < n,
                adj@.len() == n,
                visited@.len() == n,
                cycle.len() == n,
                0 <= k < n,
                current == cycle[k],
                is_tour(cycle, n as int),
                step_ok(adj@, cycle, k),
                n >= 2 ==> adj@[0]@.len() >= 1 && adj@[0]@[0] == cycle[1],
                t <= adj@[current as int]@.len(),
                visited@[cycle[0] as int],
                k >= 1 ==> visited@[cycle[k - 1] as int],
                k + 1 < n ==> !visited@[cycle[k + 1] as int],
                k == 0 ==> cycle[0] == 0,
                k == 0 ==> t == 0 || next is Some || n == 1,
                next matches Some(city) ==> k + 1 < n && city == cycle[k + 1],
                next is None ==> forall|i: int|
                    0 <= i < t ==> visited@[(#[trigger] adj@[current as int]@[i]) as int],
                forall|c: usize| c < n ==> (visited@[c as int] <==> tour@.contains(c)),
                first_unvisited(adj@[current as int]@, tour@, 0) == if next is None {
                    first_unvisited(adj@[current as int]@, tour@, t as int)
                } else {
                    next
                },
            decreases adj@[current as int]@.len() - t, if next is None { 1int } else { 0int },
        {
            let neighbor = adj[current][t];
            proof {
                let joined = adj@[cycle[k] as int]@;
                assert(joined[t as int] == neighbor);
                assert(neighbor < n) by {
                    assert(cycle[0] < n);
                    if k >= 1 {
                        assert(cycle[k - 1] < n);
                    }
                    if k + 1 < n {
                        assert(cycle[k + 1] < n);
                    }
                    assert(cycle[n - 1] < n);
                    if n >= 2 {
                        assert(cycle[1] < n);
                    }
                }
            }
            if !visited[neighbor] {
                next = Some(neighbor);
            } else {
                t = t + 1;
            }
        }
        proof {
            assert(lists_of(adj@)[current as int] == adj@[current as int]@);
            assert(before.push(current) == tour@);
        }
        match next {
            Some(city) => {
                current = city;
            },
            None => {
                proof {
                    if k + 1 < n {
                        let joined = adj@[cycle[k] as int]@;
                        assert(joined.contains(cycle[k + 1]));
                        let i = choose|i: int| 0 <= i < joined.len() && joined[i] == cycle[k + 1];
                        assert(visited@[joined[i] as int]);
                    }
                }
                done = true;
            },
        }
    }
    proof {
        assert(cycle.take(n as int) =~= cycle);
    }
    tour
}

/// One entry of the list of edges: the length, then the two cities, the
/// lower first.
pub open spec fn is_edge(entry: (u64, u64, usize), n: int, graph: Seq<Vec<u64>>) -> bool {
    &&& entry.1 < entry.2 < n
    &&& entry.0 == dist(graph, entry.1 as int, entry.2 as int)
}

/// The first edge joins a lower city than the second, or the same to a
/// lower one.
pub open spec fn pair_before(first: (u64, u64, usize), second: (u64, u64, usize)) -> bool {
    first.1 < second.1 || (first.1 == second.1 && first.2 < second.2)
}

/// The edges between the cities `[0, n)`, each once.
fn all_edges(n: usize, graph: &[Vec<u64>]) -> (edges: Vec<(u64, u64, usize)>)
    requires
        is_square(graph@),
        n <= graph@.len(),
    ensures
        forall|k: int| 0 <= k < edges@.len() ==> is_edge(#[trigger] edges@[k], n as int, graph@),
        forall|a: int, b: int| 0 <= a < b < edges@.len() ==> pair_before(edges@[a], edges@[b]),
        forall|a: usize, b: usize|
            a < b < n ==> edges@.contains(
                (#[trigger] dist(graph@, a as int, b as int) as u64, a as u64, b),
            ),
{
    let mut edges: Vec<(u64, u64, usize)> = Vec::new();
    let mut i: usize = 0;
    while i < n
        invariant
            i <= n,
            is_square(graph@),
            n <= graph@.len(),
            forall|k: int| 0 <= k < edges@.len() ==> is_edge(#[trigger] edges@[k], n as int, graph@),
            forall|a: usize, b: usize|
                a < b < n && a < i ==> edges@.contains(
                    (#[trigger] dist(graph@, a as int, b as int) as u64, a as u64, b),
                ),
            forall|a: int, b: int| 0 <= a < b < edges@.len() ==> pair_before(edges@[a], edges@[b]),
            forall|k: int| 0 <= k < edges@.len() ==> (#[trigger] edges@[k]).1 < i,
        decreases n - i,
    {
        let mut j: usize = i + 1;
        while j < n
            invariant
                i < n,
                i + 1 <= j <= n,
                is_square(graph@),
                n <= graph@.len(),
                forall|k: int|
                    0 <= k < edges@.len() ==> is_edge(#[trigger] edges@[k], n as int, graph@),
                forall|a: usize, b: usize|
                    a < b < n && (a < i || (a == i && b < j)) ==> edges@.contains(
                        (#[trigger] dist(graph@, a as int, b as int) as u64, a as u64, b),
                    ),
                forall|a: int, b: int|
                    0 <= a < b < edges@.len() ==> pair_before(edges@[a], edges@[b]),
                forall|k: int|
                    0 <= k < edges@.len() ==> (#[trigger] edges@[k]).1 < i || (edges@[k].1 == i
                        && edges@[k].2 < j),
            decreases n - j,
        {
            let ghost before = edges@;
            edges.push((graph[i][j], i as u64, j));
            proof {
                assert forall|a: usize, b: usize|
                    a < b < n && (a < i || (a == i && b < j + 1)) implies edges@.contains(
                    (#[trigger] dist(graph@, a as int, b as int) as u64, a as u64, b),
                ) by {
                    let e = (dist(graph@, a as int, b as int) as u64, a as u64, b);
                    if a == i && b == j {
                        assert(edges@[before.len() as int] == e);
                    } else {
                        assert(before.contains(e));
                        let k = choose|k: int| 0 <= k < before.len() && before[k] == e;
                        assert(edges@[k] == e);
                    }
                }
            }
            j = j + 1;
        }
        i = i + 1;
    }
    edges
}

/// The order of the edges: by length, edges of one length by their lower
/// city, and by their higher city if they share the lower.
pub open spec fn edge_before(first: (u64, u64, usize), second: (u64, u64, usize)) -> bool {
    first.0 < second.0 || (first.0 == second.0 && pair_before(first, second))
}

/// `edges` lists every edge between the cities `[0, n)` once, in the order
/// of the edges.
pub open spec fn is_edge_order(edges: Seq<(u64, u64, usize)>, n: int, graph: Seq<Vec<u64>>) -> bool {
    &&& forall|k: int| 0 <= k < edges.len() ==> is_edge(#[trigger] edges[k], n, graph)
    &&& forall|a: usize, b: usize|
        a < b < n ==> edges.contains((#[trigger] dist(graph, a as int, b as int) as u64, a as u64, b))
    &&& forall|a: int, b: int| 0 <= a < b < edges.len() ==> edge_before(edges[a], edges[b])
}

/// Every entry of an edge order stands in every other edge order of the
/// same cities.
proof fn lemma_edge_in_order(
    entry: (u64, u64, usize),
    edges: Seq<(u64, u64, usize)>,
    n: int,
    graph: Seq<Vec<u64>>,
)
    requires
        0 <= n <= usize::MAX,
        is_edge(entry, n, graph),
        is_edge_order(edges, n, graph),
    ensures
        edges.contains(entry),
{
    let a = entry.1 as usize;
    let b = entry.2;
    assert(edges.contains((dist(graph, a as int, b as int) as u64, a as u64, b)));
}

/// Two edge orders of the same cities agree up to and including position `k`.
proof fn lemma_edge_orders_agree_to(
    first: Seq<(u64, u64, usize)>,
    second: Seq<(u64, u64, usize)>,
    n: int,
    graph: Seq<Vec<u64>>,
    k: int,
)
    requires
        0 <= n <= usize::MAX,
        is_edge_order(first, n, graph),
        is_edge_order(second, n, graph),
        0 <= k < first.len(),
    ensures
        k < second.len(),
        forall|j: int| 0 <= j <= k ==> first[j] == second[j],
    decreases k,
{
    if k > 0 {
        lemma_edge_orders_agree_to(first, second, n, graph, k - 1);
    }
    let e = first[k];
    lemma_edge_in_order(e, second, n, graph);
    let m = choose|m: int| 0 <= m < second.len() && second[m] == e;
    if m < k {
        assert(first[m] == second[m]);
        assert(edge_before(first[m], first[k]));
    }
    if m > k {
        let f = second[k];
        assert(edge_before(second[k], second[m]));
        lemma_edge_in_order(f, first, n, graph);
        let back = choose|back: int| 0 <= back < first.len() && first[back] == f;
        if back < k {
            assert(first[back] == second[back]);
            assert(edge_before(second[back], second[k]));
        } else if back > k {
            assert(edge_before(first[k], first[back]));
        }
    }
}

/// There is one edge order of the cities `[0, n)`: two lists that meet
/// [`is_edge_order`] are equal. So the greedy construction, which is stated
/// over an edge order, is a function of the matrix.
pub proof fn lemma_edge_order_unique(
    first: Seq<(u64, u64, usize)>,
    second: Seq<(u64, u64, usize)>,
    n: int,
    graph: Seq<Vec<u64>>,
)
    requires
        0 <= n <= usize::MAX,
        is_edge_order(first, n, graph),
        is_edge_order(second, n, graph),
    ensures
        first == second,
{
    if first.len() > 0 {
        lemma_edge_orders_agree_to(first, second, n, graph, first.len() - 1);
    }
    if second.len() > 0 {
        lemma_edge_orders_agree_to(second, first, n, graph, second.len() - 1);
    }
    assert forall|j: int| 0 <= j < first.len() implies first[j] == second[j] by {
        lemma_edge_orders_agree_to(first, second, n, graph, j);
    }
    assert(first =~= second);
}

/// The cities that the kept edges join to `city`, in the order in which
/// the edges were kept.
pub open spec fn partners(kept: Seq<(usize, usize)>, city: usize) -> Seq<usize>
    decreases kept.len(),
{
    if kept.len() == 0 {
        Seq::empty()
    } else {
        let before = partners(kept.drop_last(), city);
        let edge = kept.last();
        if edge.0 == city {
            before.push(edge.1)
        } else if edge.1 == city {
            before.push(edge.0)
        } else {
            before
        }
    }
}

/// The chain of each city after the chain of `u` has been joined to that
/// of `v`: every chain is named by one of its cities, and the joined
/// chain keeps the name of the chain of `v`.
pub open spec fn renamed(names: Seq<usize>, u: usize, v: usize) -> Seq<usize> {
    Seq::new(
        names.len(),
        |w: int| if names[w] == names[u as int] { names[v as int] } else { names[w] },
    )
}

/// The edge between `u` and `v` is kept: fewer edges than cities are
/// kept, neither city has two kept edges, and the two stand in different
/// chains unless all cities stand in one.
pub open spec fn keeps(kept: Seq<(usize, usize)>, names: Seq<usize>, u: usize, v: usize, n: int) -> bool {
    &&& kept.len() < n
    &&& partners(kept, u).len() < 2
    &&& partners(kept, v).len() < 2
    &&& (kept.len() + 1 < n ==> names[u as int] != names[v as int])
}

/// The edges kept of the first `count` edges of `edges`, with the name of
/// the chain of each city.
pub open spec fn greedy_links(edges: Seq<(u64, u64, usize)>, count: int, n: int) -> (
    Seq<(usize, usize)>,
    Seq<usize>,
)
    decreases count,
{
    if count <= 0 {
        (Seq::empty(), Seq::new(n as nat, |w: int| w as usize))
    } else {
        let before = greedy_links(edges, count - 1, n);
        let u = edges[count - 1].1 as usize;
        let v = edges[count - 1].2;
        if keeps(before.0, before.1, u, v, n) {
            (before.0.push((u, v)), renamed(before.1, u, v))
        } else {
            before
        }
    }
}

/// The tour of the greedy construction over the edges `edges`: the walk
/// from city 0 along the kept edges.
pub open spec fn greedy_tour(edges: Seq<(u64, u64, usize)>, n: int) -> Seq<usize> {
    if n <= 0 {
        Seq::empty()
    } else {
        let kept = greedy_links(edges, edges.len() as int, n).0;
        walk_on(Seq::new(n as nat, |v: int| partners(kept, v as usize)), Seq::empty(), 0, n)
    }
}

/// Once as many edges are kept as there are cities, no further edge is kept.
proof fn lemma_greedy_links_full(edges: Seq<(u64, u64, usize)>, from: int, to: int, n: int)
    requires
        0 <= from <= to,
        greedy_links(edges, from, n).0.len() >= n,
    ensures
        greedy_links(edges, to, n) == greedy_links(edges, from, n),
    decreases to - from,
{
    if from < to {
        lemma_greedy_links_full(edges, from, to - 1, n);
    }
}

/// Builds a tour of the cities `[0, n)` from the shortest edges: the edges
/// are tried in the order of their length, edges of one length in the
/// order of their cities, and an edge is kept unless one of its cities
/// has two kept edges already or the edge would close a cycle before all
/// cities are joined. The tour follows the kept edges from city 0,
/// first along the edge of city 0 that was kept first.
pub fn generate_tour(n: usize, graph: &[Vec<u64>]) -> (tour: Vec<usize>)
    requires
        is_square(graph@),
        n <= graph@.len(),
    ensures
        is_tour(tour@, n as int),
        n >= 1 ==> tour@[0] == 0,
        exists|edges: Seq<(u64, u64, usize)>| #[trigger]
            is_edge_order(edges, n as int, graph@) && tour@ == greedy_tour(edges, n as int),
{
    if n == 0 {
        proof {
            let none = Seq::<(u64, u64, usize)>::empty();
            assert(is_edge_order(none, 0, graph@));
        }
        return Vec::new();
    }
    let mut edges = all_edges(n, graph);
    let ghost listed = edges@;
    let ghost total = edges.len();
    sort_triples(&mut edges);
    proof {
        assert(listed.len() == total);
        let perm = choose|perm: Seq<usize>| is_rearrangement(perm, listed, edges@);
        assert forall|k: int| 0 <= k < edges@.len() implies is_edge(
            #[trigger] edges@[k],
            n as int,
            graph@,
        ) by {
            assert(edges@[k] == listed[perm[k] as int]);
        }
        assert forall|a: usize, b: usize| a < b < n implies edges@.contains(
            (#[trigger] dist(graph@, a as int, b as int) as u64, a as u64, b),
        ) by {
            let e = (dist(graph@, a as int, b as int) as u64, a as u64, b);
            assert(listed.contains(e));
            let p = choose|p: int| 0 <= p < listed.len() && listed[p] == e;
            lemma_tour_visits_every_city(perm, listed.len() as int, p as usize);
            let k = choose|k: int| 0 <= k < listed.len() && perm[k] == p as usize;
            assert(edges@[k] == listed[perm[k] as int]);
            assert(listed[perm[k] as int] == e);
            assert(0 <= k < edges@.len() && edges@[k] == e);
        }
        assert forall|a: int, b: int| 0 <= a < b < edges@.len() implies edge_before(
            edges@[a],
            edges@[b],
        ) by {
            assert(edges@[a] == listed[perm[a] as int]);
            assert(edges@[b] == listed[perm[b] as int]);
            assert(perm[a] != perm[b]);
            if perm[a] < perm[b] {
                assert(pair_before(listed[perm[a] as int], listed[perm[b] as int]));
            } else {
                assert(pair_before(listed[perm[b] as int], listed[perm[a] as int]));
            }
            assert(crate::sorting::triple_le(edges@[a], edges@[b]));
        }
        assert(is_edge_order(edges@, n as int, graph@));
    }
    let mut links = Links::new(n);
    let ghost mut kept: Seq<(usize, usize)> = Seq::empty();
    proof {
        assert(links.sets.rep@ =~= greedy_links(edges@, 0, n as int).1) by {
            assert forall|w: int| 0 <= w < n implies links.sets.rep@[w] == w as usize by {
                assert(links.rep(w) == w);
            }
        }
        assert forall|w: int| 0 <= w < n implies (#[trigger] links.adj@[w])@ == partners(
            kept,
            w as usize,
        ) by {
            assert(links.adj@[w]@ =~= Seq::<usize>::empty());
        }
    }
    let mut idx: usize = 0;
    while idx < edges.len() && links.edge_count < n
        invariant
            idx <= edges@.len(),
            n >= 1,
            links.wf(),
            links.n() == n,
            is_square(graph@),
            n <= graph@.len(),
            forall|k: int| 0 <= k < edges@.len() ==> is_edge(#[trigger] edges@[k], n as int, graph@),
            forall|k: int|
                0 <= k < idx ==> links.settled((#[trigger] edges@[k]).1 as int, edges@[k].2 as int),
            greedy_links(edges@, idx as int, n as int) == (kept, links.sets.rep@),
            kept.len() == links.edge_count,
            forall|w: int|
                0 <= w < n ==> (#[trigger] links.adj@[w])@ == partners(kept, w as usize),
        decreases edges@.len() - idx,
    {
        let from = edges[idx].1 as usize;
        let to = edges[idx].2;
        proof {
            assert(is_edge(edges@[idx as int], n as int, graph@));
            assert(from == edges@[idx as int].1);
            assert(links.city_ok(from as int));
            assert(links.city_ok(to as int));
            lemma_chain_members(links, from, from);
            lemma_chain_members(links, to, to);
            assert(links.root_ok(links.rep(from as int) as int));
            assert(links.root_ok(links.rep(to as int) as int));
        }
        let ghost before = links;
        if links.degree[from] >= 2 || links.degree[to] >= 2 {
            // One of the two cities has its two edges.
            proof {
                lemma_degree_limit(links, from);
                lemma_degree_limit(links, to);
                assert(links.settled(from as int, to as int));
            }
        } else if links.edge_count < n - 1 && links.same_chain(from, to) {
            // The edge would close a cycle before all cities are joined.
            proof {
                lemma_skipped_settled(links, from, to);
                assert(links.settled(from as int, to as int));
                assert forall|k: int| 0 <= k < idx implies links.settled(
                    (#[trigger] edges@[k]).1 as int,
                    edges@[k].2 as int,
                ) by {
                    assert(before.settled(edges@[k].1 as int, edges@[k].2 as int));
                }
            }
        } else {
            let ghost tried = links;
            proof {
                assert forall|k: int| 0 <= k < idx implies tried.settled(
                    (#[trigger] edges@[k]).1 as int,
                    edges@[k].2 as int,
                ) by {
                    assert(before.settled(edges@[k].1 as int, edges@[k].2 as int));
                }
            }
            links.link(from, to);
            proof {
                let longer = kept.push((from, to));
                assert(longer.drop_last() =~= kept);
                assert(links.sets.rep@ =~= renamed(tried.sets.rep@, from, to)) by {
                    assert forall|w: int| 0 <= w < n implies links.sets.rep@[w] == renamed(
                        tried.sets.rep@,
                        from,
                        to,
                    )[w] by {
                        assert(links.rep(w) == if tried.rep(w) == tried.rep(from as int) {
                            tried.rep(to as int)
                        } else {
                            tried.rep(w)
                        });
                    }
                }
                assert forall|w: int| 0 <= w < n implies (#[trigger] links.adj@[w])@ == partners(
                    longer,
                    w as usize,
                ) by {
                    assert(tried.adj@[w]@ == partners(kept, w as usize));
                }
                assert(tried.city_ok(from as int));
                assert(tried.city_ok(to as int));
                assert(keeps(kept, tried.sets.rep@, from, to, n as int));
                kept = longer;
                assert(links.settled(from as int, to as int));
                assert forall|k: int| 0 <= k < idx implies links.settled(
                    (#[trigger] edges@[k]).1 as int,
                    edges@[k].2 as int,
                ) by {
                    assert(is_edge(edges@[k], n as int, graph@));
                    assert(tried.settled(edges@[k].1 as int, edges@[k].2 as int));
                }
            }
        }
        proof {
            assert(greedy_links(edges@, idx + 1, n as int) == (kept, links.sets.rep@)) by {
                assert(before.city_ok(from as int));
                assert(before.city_ok(to as int));
            }
        }
        idx = idx + 1;
    }
    let ghost cycle: Seq<usize>;
    proof {
        if idx < edges@.len() {
            lemma_greedy_links_full(edges@, idx as int, edges@.len() as int, n as int);
        }
        assert(lists_of(links.adj@) =~= Seq::new(n as nat, |v: int| partners(kept, v as usize)));
        lemma_chain_sizes(links, 0);
        if !links.closed@ {
            assert(idx == edges@.len());
        }
        assert forall|a: int, b: int| 0 <= a < b < n implies #[trigger] links.settled(a, b) by {
            if !links.closed@ {
                let e = (dist(graph@, a, b) as u64, a as u64, b as usize);
                assert(edges@.contains((dist(graph@, a as usize as int, b as usize as int) as u64, a as usize as u64, b as usize)));
                let k = choose|k: int| 0 <= k < edges@.len() && edges@[k] == e;
                assert(links.settled(edges@[k].1 as int, edges@[k].2 as int));
            }
        }
        cycle = lemma_walkable(links);
    }
    let tour = walk(&links.adj, n, Ghost(cycle));
    tour
}

} // verus!
