//! Disjoint sets of cities with path compression: which cities are joined,
//! directly or through others.

use vstd::prelude::*;

verus! {

/// A forest of parent links over the cities `[0, n)`: each city points
/// towards the representative of its set, which points to itself.
pub struct UnionFind {
    pub parent: Vec<usize>,
    /// The representative of each city's set.
    pub rep: Ghost<Seq<usize>>,
    /// A rank that grows along every parent link, and its bound.
    pub rank: Ghost<Seq<nat>>,
    pub rank_bound: Ghost<nat>,
}

impl UnionFind {
    /// The number of cities.
    pub open spec fn size(&self) -> nat {
        self.parent@.len()
    }

    /// The representative of the set of `city`.
    pub open spec fn rep_of(&self, city: int) -> usize {
        self.rep@[city]
    }

    /// The link of `v` stays within the set of `v` and leads upwards.
    pub open spec fn link_ok(&self, v: int) -> bool {
        &&& self.parent@[v] < self.parent@.len()
        &&& self.rep@[v] < self.parent@.len()
        &&& self.rep@[self.rep@[v] as int] == self.rep@[v]
        &&& self.parent@[self.rep@[v] as int] == self.rep@[v]
        &&& self.rep@[self.parent@[v] as int] == self.rep@[v]
        &&& (self.parent@[v] == v ==> self.rep@[v] == v)
        &&& (self.parent@[v] != v ==> self.rank@[v] < self.rank@[self.parent@[v] as int])
        &&& self.rank@[v] <= self.rank_bound@
    }

    /// The parent links lead every city to the representative of its set.
    pub open spec fn wf(&self) -> bool {
        &&& self.rep@.len() == self.parent@.len()
        &&& self.rank@.len() == self.parent@.len()
        &&& forall|v: int| 0 <= v < self.parent@.len() ==> #[trigger] self.link_ok(v)
    }

    /// Every city in a set of its own.
    pub fn new(n: usize) -> (sets: UnionFind)
        ensures
            sets.wf(),
            sets.size() == n,
            forall|v: int| 0 <= v < n ==> #[trigger] sets.rep_of(v) == v,
    {
        let mut parent: Vec<usize> = Vec::new();
        let mut i: usize = 0;
        while i < n
            invariant
                i <= n,
                parent@.len() == i,
                forall|v: int| 0 <= v < i ==> parent@[v] == v,
            decreases n - i,
        {
            parent.push(i);
            i = i + 1;
        }
        let sets = UnionFind {
            parent,
            rep: Ghost(Seq::new(n as nat, |v: int| v as usize)),
            rank: Ghost(Seq::new(n as nat, |v: int| 0nat)),
            rank_bound: Ghost(0nat),
        };
        proof {
            assert forall|v: int| 0 <= v < n implies #[trigger] sets.link_ok(v) by {}
        }
        sets
    }

    /// The representative of the set of `x`. The links passed on the way
    /// are shortened to point at it.
    pub fn find(&mut self, x: usize) -> (root: usize)
        requires
            old(self).wf(),
            x < old(self).size(),
        ensures
            final(self).wf(),
            final(self).size() == old(self).size(),
            final(self).rep@ == old(self).rep@,
            final(self).rank@ == old(self).rank@,
            final(self).rank_bound@ == old(self).rank_bound@,
            root == old(self).rep_of(x as int),
            root != x ==> old(self).rank@[x as int] < old(self).rank@[root as int],
        decreases old(self).rank_bound@ - old(self).rank@[x as int],
    {
        proof {
            assert(self.link_ok(x as int));
        }
        let up = self.parent[x];
        if up != x {
            proof {
                assert(self.link_ok(up as int));
            }
            let root = self.find(up);
            let ghost before = *self;
            self.parent.set(x, root);
            proof {
                assert(before.link_ok(root as int));
                assert forall|v: int| 0 <= v < self.parent@.len() implies #[trigger] self.link_ok(
                    v,
                ) by {
                    assert(before.link_ok(v));
                    assert(before.link_ok(before.rep@[v] as int));
                }
            }
            root
        } else {
            x
        }
    }

    /// Joins the set of `x` into the set of `y`.
    pub fn union(&mut self, x: usize, y: usize)
        requires
            old(self).wf(),
            x < old(self).size(),
            y < old(self).size(),
        ensures
            final(self).wf(),
            final(self).size() == old(self).size(),
            forall|v: int|
                0 <= v < old(self).size() ==> #[trigger] final(self).rep_of(v) == if old(
                    self,
                ).rep_of(v) == old(self).rep_of(x as int) {
                    old(self).rep_of(y as int)
                } else {
                    old(self).rep_of(v)
                },
    {
        proof {
            assert(self.link_ok(x as int));
            assert(self.link_ok(y as int));
        }
        let px = self.find(x);
        let py = self.find(y);
        let ghost before = *self;
        proof {
            assert(before.link_ok(x as int));
            assert(before.link_ok(y as int));
            assert(before.link_ok(px as int));
            assert(before.link_ok(py as int));
        }
        self.parent.set(px, py);
        proof {
            if px == py {
                assert(self.parent@ =~= before.parent@);
                assert forall|v: int| 0 <= v < self.parent@.len() implies #[trigger] self.link_ok(
                    v,
                ) by {
                    assert(before.link_ok(v));
                }
            } else {
                let lift = before.rank@[px as int] + 1;
                self.rep@ = Seq::new(
                    before.rep@.len(),
                    |v: int| if before.rep@[v] == px { py } else { before.rep@[v] },
                );
                self.rank@ = Seq::new(
                    before.rank@.len(),
                    |v: int| if before.rep@[v] == py { before.rank@[v] + lift } else { before.rank@[v] },
                );
                self.rank_bound@ = before.rank_bound@ + lift;
                assert forall|v: int| 0 <= v < self.parent@.len() implies #[trigger] self.link_ok(
                    v,
                ) by {
                    assert(before.link_ok(v));
                    assert(before.link_ok(before.parent@[v] as int));
                    assert(before.link_ok(before.rep@[v] as int));
                    assert(before.link_ok(px as int));
                    assert(before.link_ok(py as int));
                }
            }
        }
    }
}

} // verus!
