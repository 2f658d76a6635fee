//! Union-find over body indices, used to group bodies into sleeping islands.
//!
//! The parent forest is kept acyclic by a ghost rank: every non-root node has
//! a strictly smaller rank than its parent, and all ranks stay below a ghost
//! bound. That rank is the termination measure of `find` and the induction
//! measure of every lemma about representatives.

use vstd::prelude::*;

verus! {

/// The parent forest is well formed: every parent is in range, every rank is
/// below `bound`, and ranks strictly increase from a node to its parent.
pub open spec fn forest_wf(parent: Seq<usize>, rank: Seq<nat>, bound: nat) -> bool {
    &&& parent.len() == rank.len()
    &&& forall|i: int| 0 <= i < parent.len() ==> (#[trigger] parent[i] as int) < parent.len()
    &&& forall|i: int| 0 <= i < parent.len() ==> #[trigger] rank[i] < bound
    &&& forall|i: int|
        0 <= i < parent.len() && #[trigger] parent[i] != i ==> rank[i] < rank[parent[i] as int]
}

/// The representative of `x`: follow parent links until a self-loop. The
/// guards only matter outside a well-formed forest, where they keep the
/// definition total.
pub open spec fn forest_root(parent: Seq<usize>, rank: Seq<nat>, bound: nat, x: int) -> int
    decreases bound - rank[x],
{
    if 0 <= x < parent.len() && parent[x] != x && (parent[x] as int) < parent.len() && rank[x]
        < rank[parent[x] as int] && rank[parent[x] as int] < bound {
        forest_root(parent, rank, bound, parent[x] as int)
    } else {
        x
    }
}

/// In a well-formed forest the representative is in range and is a root.
pub proof fn lemma_root_is_root(parent: Seq<usize>, rank: Seq<nat>, bound: nat, x: int)
    requires
        forest_wf(parent, rank, bound),
        0 <= x < parent.len(),
    ensures
        0 <= forest_root(parent, rank, bound, x) < parent.len(),
        parent[forest_root(parent, rank, bound, x)] == forest_root(parent, rank, bound, x),
        parent[x] != x ==> forest_root(parent, rank, bound, x) == forest_root(
            parent,
            rank,
            bound,
            parent[x] as int,
        ),
    decreases bound - rank[x],
{
    if parent[x] != x {
        let p = parent[x] as int;
        assert(rank[x] < rank[p]);
        assert(rank[p] < bound);
        lemma_root_is_root(parent, rank, bound, p);
    }
}

/// Path halving (pointing `x` at its grandparent) keeps the forest well
/// formed and changes no node's representative.
proof fn lemma_halve(parent: Seq<usize>, rank: Seq<nat>, bound: nat, x: int, y: int)
    requires
        forest_wf(parent, rank, bound),
        0 <= x < parent.len(),
        parent[x] != x,
        0 <= y < parent.len(),
    ensures
        forest_wf(parent.update(x, parent[parent[x] as int]), rank, bound),
        forest_root(parent.update(x, parent[parent[x] as int]), rank, bound, y) == forest_root(
            parent,
            rank,
            bound,
            y,
        ),
    decreases bound - rank[y],
{
    let p = parent[x] as int;
    let gp = parent[p] as int;
    let np = parent.update(x, gp as usize);
    assert(rank[x] < rank[p]);
    assert(p != gp ==> rank[p] < rank[gp]);
    assert(forest_wf(np, rank, bound)) by {
        assert forall|i: int| 0 <= i < np.len() && #[trigger] np[i] != i implies rank[i]
            < rank[np[i] as int] by {
            if i == x {
                assert(np[i] as int == gp);
            }
        }
        assert forall|i: int| 0 <= i < np.len() implies (#[trigger] np[i] as int) < np.len() by {
            if i == x {
            }
        }
    }
    lemma_root_is_root(parent, rank, bound, y);
    if parent[y] == y {
        assert(y != x);
        assert(np[y] == y);
    } else if y == x {
        lemma_halve(parent, rank, bound, x, gp);
        lemma_root_is_root(parent, rank, bound, p);
        assert(np[x] as int == gp);
        assert(gp != x);
    } else {
        let py = parent[y] as int;
        assert(np[y] == parent[y]);
        lemma_halve(parent, rank, bound, x, py);
    }
}

/// Rank of the new root after linking `ra` under `rb`.
pub open spec fn link_rank(rank: Seq<nat>, ra: int, rb: int) -> Seq<nat> {
    rank.update(rb, if rank[rb] > rank[ra] { rank[rb] } else { rank[ra] + 1 })
}

/// Rank bound after linking `ra` under `rb`.
pub open spec fn link_bound(rank: Seq<nat>, bound: nat, ra: int) -> nat {
    if bound > rank[ra] + 2 { bound } else { rank[ra] + 2 }
}

/// Linking root `ra` under root `rb` (raising `rb`'s rank when needed) keeps
/// the forest well formed and moves exactly the members of `ra`'s tree to `rb`.
proof fn lemma_link(parent: Seq<usize>, rank: Seq<nat>, bound: nat, ra: int, rb: int, y: int)
    requires
        forest_wf(parent, rank, bound),
        0 <= ra < parent.len(),
        0 <= rb < parent.len(),
        ra != rb,
        parent[ra] == ra,
        parent[rb] == rb,
        0 <= y < parent.len(),
    ensures
        forest_wf(parent.update(ra, rb as usize), link_rank(rank, ra, rb), link_bound(rank, bound, ra)),
        forest_root(parent.update(ra, rb as usize), link_rank(rank, ra, rb), link_bound(rank, bound, ra), y)
            == if forest_root(parent, rank, bound, y) == ra {
            rb
        } else {
            forest_root(parent, rank, bound, y)
        },
    decreases bound - rank[y],
{
    let np = parent.update(ra, rb as usize);
    let nr = link_rank(rank, ra, rb);
    let nb = link_bound(rank, bound, ra);
    assert(forest_wf(np, nr, nb)) by {
        assert forall|i: int| 0 <= i < np.len() implies #[trigger] nr[i] < nb by {
            assert(rank[i] < bound);
        }
        assert forall|i: int| 0 <= i < np.len() && #[trigger] np[i] != i implies nr[i]
            < nr[np[i] as int] by {
            if i == ra {
                assert(np[i] as int == rb);
            } else {
                assert(np[i] == parent[i]);
                assert(i != rb);
            }
        }
        assert forall|i: int| 0 <= i < np.len() implies (#[trigger] np[i] as int) < np.len() by {
            if i == ra {
            }
        }
    }
    lemma_root_is_root(parent, rank, bound, y);
    if y == ra {
        assert(np[rb] == rb);
        assert(forest_root(np, nr, nb, rb) == rb);
    } else if parent[y] == y {
        assert(np[y] == y);
    } else {
        let py = parent[y] as int;
        assert(np[y] == parent[y]);
        assert(y != rb);
        assert(nr[y] == rank[y]);
        assert(rank[y] < rank[py]);
        lemma_link(parent, rank, bound, ra, rb, py);
    }
}

/// Disjoint sets over `0..n`, with path halving in `find`.
pub struct UnionFind {
    parent: Vec<usize>,
    rank: Ghost<Seq<nat>>,
    bound: Ghost<nat>,
}

impl UnionFind {
    /// The forest behind the structure is well formed.
    pub closed spec fn wf(&self) -> bool {
        forest_wf(self.parent@, self.rank@, self.bound@)
    }

    /// Number of elements.
    pub closed spec fn len(&self) -> nat {
        self.parent@.len()
    }

    /// The current representative of `x`.
    pub closed spec fn root(&self, x: int) -> int {
        forest_root(self.parent@, self.rank@, self.bound@, x)
    }

    /// `x` and `y` are in the same set.
    pub open spec fn same(&self, x: int, y: int) -> bool {
        self.root(x) == self.root(y)
    }

    /// Representatives are in range and are their own representative.
    pub proof fn lemma_root_in_range(&self, x: int)
        requires
            self.wf(),
            0 <= x < self.len(),
        ensures
            0 <= self.root(x) < self.len(),
            self.root(self.root(x)) == self.root(x),
    {
        lemma_root_is_root(self.parent@, self.rank@, self.bound@, x);
    }

    /// `n` singleton sets: every element is its own representative.
    pub fn new(n: usize) -> (uf: Self)
        ensures
            uf.wf(),
            uf.len() == n,
            forall|x: int| 0 <= x < n ==> #[trigger] uf.root(x) == x,
    {
        let mut parent: Vec<usize> = Vec::with_capacity(n);
        let mut i: usize = 0;
        while i < n
            invariant
                i <= n,
                parent@.len() == i,
                forall|j: int| 0 <= j < i ==> #[trigger] parent@[j] == j,
            decreases n - i,
        {
            parent.push(i);
            i = i + 1;
        }
        let uf = UnionFind {
            parent,
            rank: Ghost(Seq::new(n as nat, |j: int| 0nat)),
            bound: Ghost(1nat),
        };
        assert forall|x: int| 0 <= x < n implies #[trigger] uf.root(x) == x by {
            assert(uf.parent@[x] == x);
        }
        uf
    }

    /// The representative of `x`. Halves the path on the way up, which
    /// changes no element's representative.
    pub fn find(&mut self, x: usize) -> (r: usize)
        requires
            old(self).wf(),
            x < old(self).len(),
        ensures
            final(self).wf(),
            final(self).len() == old(self).len(),
            r as int == old(self).root(x as int),
            forall|y: int| 0 <= y < old(self).len() ==> #[trigger] final(self).root(y) == old(self).root(y),
    {
        let ghost start = x as int;
        let mut x = x;
        proof {
            lemma_root_is_root(self.parent@, self.rank@, self.bound@, start);
        }
        while self.parent[x] != x
            invariant
                self.wf(),
                self.len() == old(self).len(),
                self.rank@ == old(self).rank@,
                self.bound@ == old(self).bound@,
                x < self.len(),
                self.root(x as int) == old(self).root(start),
                forall|y: int| 0 <= y < old(self).len() ==> #[trigger] self.root(y) == old(self).root(y),
            decreases self.bound@ - self.rank@[x as int],
        {
            let p = self.parent[x];
            let gp = self.parent[p];
            let ghost prev = self.parent@;
            let ghost before = *self;
            proof {
                lemma_halve(prev, self.rank@, self.bound@, x as int, 0);
                lemma_root_is_root(prev, self.rank@, self.bound@, x as int);
                lemma_root_is_root(prev, self.rank@, self.bound@, p as int);
                assert(self.rank@[x as int] < self.rank@[p as int]);
                assert(p != gp ==> self.rank@[p as int] < self.rank@[gp as int]);
            }
            self.parent.set(x, gp);
            proof {
                assert(self.parent@ == prev.update(x as int, prev[prev[x as int] as int]));
                assert forall|y: int| 0 <= y < old(self).len() implies #[trigger] self.root(y)
                    == old(self).root(y) by {
                    lemma_halve(prev, self.rank@, self.bound@, x as int, y);
                    assert(forest_root(prev, self.rank@, self.bound@, y) == before.root(y));
                }
                lemma_halve(prev, self.rank@, self.bound@, x as int, gp as int);
            }
            x = gp;
        }
        x
    }

    /// Merge the sets of `a` and `b`: afterwards every member of `a`'s set has
    /// `b`'s representative, and no other element's representative changes.
    pub fn union(&mut self, a: usize, b: usize)
        requires
            old(self).wf(),
            a < old(self).len(),
            b < old(self).len(),
        ensures
            final(self).wf(),
            final(self).len() == old(self).len(),
            forall|y: int|
                0 <= y < old(self).len() ==> #[trigger] final(self).root(y) == if old(self).root(y)
                    == old(self).root(a as int) {
                    old(self).root(b as int)
                } else {
                    old(self).root(y)
                },
    {
        let ra = self.find(a);
        let ghost mid = *self;
        let rb = self.find(b);
        let ghost after_finds = *self;
        proof {
            assert forall|y: int| 0 <= y < old(self).len() implies #[trigger] after_finds.root(y)
                == old(self).root(y) by {
                assert(after_finds.root(y) == mid.root(y));
            }
            assert(self.root(a as int) == mid.root(a as int));
            assert(self.root(b as int) == old(self).root(b as int));
            assert(mid.root(b as int) == old(self).root(b as int));
            assert(ra as int == self.root(a as int));
            assert(rb as int == self.root(b as int));
        }
        if ra != rb {
            proof {
                lemma_root_is_root(self.parent@, self.rank@, self.bound@, a as int);
                lemma_root_is_root(self.parent@, self.rank@, self.bound@, b as int);
                let pr = self.parent@;
                let rk = self.rank@;
                let bd = self.bound@;
                assert forall|y: int| 0 <= y < pr.len() implies #[trigger] forest_root(
                    pr.update(ra as int, rb),
                    link_rank(rk, ra as int, rb as int),
                    link_bound(rk, bd, ra as int),
                    y,
                ) == if forest_root(pr, rk, bd, y) == ra {
                    rb as int
                } else {
                    forest_root(pr, rk, bd, y)
                } by {
                    lemma_link(pr, rk, bd, ra as int, rb as int, y);
                }
                lemma_link(pr, rk, bd, ra as int, rb as int, 0);
                self.rank = Ghost(link_rank(rk, ra as int, rb as int));
                self.bound = Ghost(link_bound(rk, bd, ra as int));
            }
            self.parent.set(ra, rb);
            proof {
                assert forall|y: int| 0 <= y < old(self).len() implies #[trigger] self.root(y)
                    == if after_finds.root(y) == ra {
                    rb as int
                } else {
                    after_finds.root(y)
                } by {
                    lemma_link(after_finds.parent@, after_finds.rank@, after_finds.bound@, ra as int, rb as int, y);
                }
            }
        }
        proof {
            assert forall|y: int| 0 <= y < old(self).len() implies #[trigger] self.root(y)
                == if old(self).root(y) == old(self).root(a as int) {
                old(self).root(b as int)
            } else {
                old(self).root(y)
            } by {
                assert(after_finds.root(y) == old(self).root(y));
            }
        }
    }
}

} // verus!
