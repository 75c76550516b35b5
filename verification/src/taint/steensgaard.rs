//! Unification-based (Steensgaard) alias classes: a union-find with path
//! halving and union by rank.
//!
//! The abstract state is a partition of the node ids `0..len()`: `rep(x)` is
//! the representative of `x`'s class and `same(x, y)` says that `x` and `y`
//! may alias. Every operation is specified by what it does to that partition.

use vstd::prelude::*;
use vstd::arithmetic::power2::{pow2, lemma_pow2_unfold, lemma_pow2_strictly_increases, lemma2_to64};
use vstd::set_lib::{set_int_range, lemma_int_range, lemma_len_subset, lemma_set_disjoint_lens};

verus! {

/// The members of the class whose representative is `r`.
pub open spec fn class_set(root: Seq<int>, r: int) -> Set<int> {
    Set::new(|x: int| 0 <= x < root.len() && root[x] == r)
}

/// The union-find shape: `root[x]` is where `x`'s parent pointers end, each
/// step strictly raising the rank, and a root of rank `r` heads at least
/// `2^r` nodes (so ranks stay below 33 for at most `2^32` nodes).
#[verifier::opaque]
pub open spec fn forest_wf(parent: Seq<u32>, rank: Seq<u8>, root: Seq<int>) -> bool {
    let n = parent.len();
    &&& rank.len() == n
    &&& root.len() == n
    &&& n <= 0x1_0000_0000
    &&& forall|x: int| 0 <= x < n ==> #[trigger] parent[x] < n
    &&& forall|x: int| 0 <= x < n ==> 0 <= #[trigger] root[x] < n
    &&& forall|x: int| 0 <= x < n ==> parent[#[trigger] root[x] as int] == root[x]
    &&& forall|x: int| 0 <= x < n ==> root[parent[x] as int] == #[trigger] root[x]
    &&& forall|x: int| 0 <= x < n && #[trigger] parent[x] != x ==> rank[x] < rank[parent[x] as int]
    &&& forall|x: int| 0 <= x < n && #[trigger] parent[x] == x ==> root[x] == x
    &&& forall|r: int| 0 <= r < n && #[trigger] root[r] == r ==> pow2(rank[r] as nat) <= class_set(root, r).len()
}

/// Path halving keeps the shape and every node's root.
proof fn lemma_halve(parent: Seq<u32>, rank: Seq<u8>, root: Seq<int>, cur: int)
    requires
        forest_wf(parent, rank, root),
        0 <= cur < parent.len(),
        parent[cur] != cur,
    ensures
        forest_wf(parent.update(cur, parent[parent[cur] as int]), rank, root),
        rank[cur] < rank[parent[cur] as int],
        parent[cur] < parent.len(),
        root[parent[cur] as int] == root[cur],
{
    reveal(forest_wf);
    let n = parent.len();
    let p = parent[cur] as int;
    let gp = parent[p];
    let np = parent.update(cur, gp);
    assert(root[gp as int] == root[p]);
    assert forall|y: int| 0 <= y < n implies np[#[trigger] root[y] as int] == root[y] by {
        assert(parent[root[y]] == root[y]);
    }
    assert forall|y: int| 0 <= y < n implies root[np[y] as int] == #[trigger] root[y] by {
        assert(root[parent[y] as int] == root[y]);
    }
    assert forall|y: int| 0 <= y < n && #[trigger] np[y] != y implies rank[y] < rank[np[y] as int] by {
        if y != cur {
            assert(parent[y] != y);
        } else {
            if gp != p {
                assert(rank[p] < rank[gp as int]);
            }
        }
    }
    assert forall|y: int| 0 <= y < n && #[trigger] np[y] == y implies root[y] == y by {
        if y != cur {
            assert(parent[y] == y);
        } else {
            if gp != p {
                assert(rank[p] < rank[gp as int]);
            }
        }
    }
}

/// A union-find over variable/pointer equivalence classes.
pub struct Steensgaard {
    parent: Vec<u32>,
    rank: Vec<u8>,
    root: Ghost<Seq<int>>,
}

impl Steensgaard {
    /// Number of nodes.
    pub closed spec fn len(&self) -> nat {
        self.parent@.len()
    }

    /// The representative of `x`'s class.
    pub closed spec fn rep(&self, x: int) -> int {
        self.root@[x]
    }

    /// `x` and `y` are in one class.
    pub open spec fn same(&self, x: int, y: int) -> bool {
        self.rep(x) == self.rep(y)
    }

    /// `same`, with ids past the end standing in singleton classes: the
    /// partition as seen by a caller that names any `u32`.
    pub open spec fn ext_same(&self, x: int, y: int) -> bool {
        if x < self.len() && y < self.len() {
            self.same(x, y)
        } else {
            x == y
        }
    }

    /// Parent pointers lead, with strictly rising rank, to the class
    /// representative; a representative of rank `r` heads at least `2^r`
    /// nodes.
    pub closed spec fn wf(&self) -> bool {
        forest_wf(self.parent@, self.rank@, self.root@)
    }

    /// Representatives are nodes.
    pub proof fn lemma_rep_in_range(&self)
        requires
            self.wf(),
        ensures
            forall|x: int| 0 <= x < self.len() ==> 0 <= #[trigger] self.rep(x) < self.len(),
            forall|x: int| 0 <= x < self.len() ==> self.rep(#[trigger] self.rep(x)) == self.rep(x),
    {
        reveal(forest_wf);
        assert forall|x: int| 0 <= x < self.len() implies self.rep(#[trigger] self.rep(x)) == self.rep(x) by {
            let r = self.root@[x];
            assert(self.parent@[r] == r);
        }
    }

    proof fn lemma_lens(&self)
        requires
            self.wf(),
        ensures
            self.rank@.len() == self.len(),
            self.root@.len() == self.len(),
            self.len() <= 0x1_0000_0000,
    {
        reveal(forest_wf);
    }

    /// May-alias is an equivalence relation on the nodes.
    pub proof fn lemma_same_is_equivalence(&self, x: int, y: int, z: int)
        ensures
            self.same(x, x),
            self.same(x, y) ==> self.same(y, x),
            self.same(x, y) && self.same(y, z) ==> self.same(x, z),
    {
    }

    /// An empty partition.
    pub fn new() -> (s: Self)
        ensures
            s.wf(),
            s.len() == 0,
    {
        let s = Steensgaard { parent: Vec::new(), rank: Vec::new(), root: Ghost(Seq::empty()) };
        proof {
            reveal(forest_wf);
        }
        s
    }

    /// Add a node in a class of its own; returns its id.
    pub fn add_node(&mut self) -> (id: u32)
        requires
            old(self).wf(),
            old(self).len() <= u32::MAX,
        ensures
            final(self).wf(),
            id == old(self).len(),
            final(self).len() == old(self).len() + 1,
            forall|x: int| 0 <= x < old(self).len() ==> #[trigger] final(self).rep(x) == old(self).rep(x),
            final(self).rep(id as int) == id,
    {
        let id = self.parent.len() as u32;
        let ghost old_root = self.root@;
        let ghost n = old_root.len();
        self.parent.push(id);
        self.rank.push(0);
        self.root = Ghost(old_root.push(id as int));
        proof {
            reveal(forest_wf);
            let root = self.root@;
            assert forall|r: int| 0 <= r < n + 1 && #[trigger] root[r] == r implies
                pow2(self.rank@[r] as nat) <= class_set(root, r).len() by {
                if r == n {
                    assert(class_set(root, r) =~= set![r]);
                    assert(pow2(0) == 1) by {
                        vstd::arithmetic::power2::lemma_pow2(0);
                        vstd::arithmetic::power::lemma_pow0(2);
                    }
                } else {
                    assert(class_set(root, r) =~= class_set(old_root, r));
                    assert(old_root[r] == r);
                }
            }
            assert forall|x: int| 0 <= x < n + 1 implies root[self.parent@[x] as int] == #[trigger] root[x] by {
                if x < n {
                    assert(old_root[x] < n);
                }
            }
        }
        id
    }

    /// Grow the node set so that `id` is a node; new nodes are singletons.
    pub fn ensure(&mut self, id: u32)
        requires
            old(self).wf(),
        ensures
            final(self).wf(),
            final(self).len() == if id < old(self).len() { old(self).len() as int } else { id + 1 },
            forall|x: int| 0 <= x < old(self).len() ==> #[trigger] final(self).rep(x) == old(self).rep(x),
            forall|x: int| old(self).len() <= x < final(self).len() ==> #[trigger] final(self).rep(x) == x,
    {
        if self.parent.len() <= id as usize {
            let ghost n0 = self.parent@.len();
            let ghost root0 = self.root@;
            proof {
                self.lemma_lens();
            }
            while self.parent.len() <= id as usize
                invariant
                    self.wf(),
                    n0 <= self.len() <= id + 1,
                    n0 <= id,
                    root0.len() == n0,
                    forall|x: int| 0 <= x < n0 ==> #[trigger] self.rep(x) == root0[x],
                    forall|x: int| n0 <= x < self.len() ==> #[trigger] self.rep(x) == x,
                decreases id + 1 - self.len(),
            {
                self.add_node();
            }
        }
    }

    /// The representative of `x`'s class, halving the path on the way up.
    /// `x` becomes a node if it is not one yet.
    pub fn find(&mut self, x: u32) -> (r: u32)
        requires
            old(self).wf(),
        ensures
            final(self).wf(),
            final(self).len() == if x < old(self).len() { old(self).len() as int } else { x + 1 },
            forall|y: int| 0 <= y < old(self).len() ==> #[trigger] final(self).rep(y) == old(self).rep(y),
            forall|y: int| old(self).len() <= y < final(self).len() ==> #[trigger] final(self).rep(y) == y,
            r == final(self).rep(x as int),
    {
        self.ensure(x);
        let ghost mid = *self;
        let mut cur = x;
        let ghost root0 = self.root@;
        let ghost n = self.parent@.len();
        proof {
            self.lemma_lens();
        }
        while self.parent[cur as usize] != cur
            invariant
                self.wf(),
                self.root@ == root0,
                self.len() == n,
                x < n,
                cur < n,
                root0[cur as int] == root0[x as int],
            decreases 256 - self.rank@[cur as int],
        {
            let p = self.parent[cur as usize];
            proof {
                lemma_halve(self.parent@, self.rank@, self.root@, cur as int);
            }
            let gp = self.parent[p as usize];
            self.parent.set(cur as usize, gp);
            cur = p;
        }
        proof {
            self.lemma_self_parent(cur as int);
            assert forall|y: int| 0 <= y < old(self).len() implies #[trigger] self.rep(y) == old(self).rep(y) by {
                assert(mid.rep(y) == old(self).rep(y));
            }
            assert forall|y: int| old(self).len() <= y < self.len() implies #[trigger] self.rep(y) == y by {
                assert(mid.rep(y) == y);
            }
        }
        cur
    }

    proof fn lemma_self_parent(&self, c: int)
        requires
            self.wf(),
            0 <= c < self.len(),
            self.parent@[c] == c,
        ensures
            self.rep(c) == c,
    {
        reveal(forest_wf);
    }

    /// Merge the classes of `a` and `b` (Steensgaard's unification rule:
    /// `a = &b` ⟹ pts(a) = pts(b)). Both become nodes if they are not.
    pub fn unify(&mut self, a: u32, b: u32)
        requires
            old(self).wf(),
        ensures
            final(self).wf(),
            final(self).len() == vstd::math::max(vstd::math::max(old(self).len() as int, a + 1), b + 1),
            forall|x: int, y: int| 0 <= x < final(self).len() && 0 <= y < final(self).len() ==>
                (#[trigger] final(self).same(x, y) <==> old(self).ext_same(x, y)
                    || (old(self).ext_same(x, a as int) && old(self).ext_same(y, b as int))
                    || (old(self).ext_same(x, b as int) && old(self).ext_same(y, a as int))),
            final(self).same(a as int, b as int),
            forall|x: int, y: int| 0 <= x < old(self).len() && 0 <= y < old(self).len() && old(self).same(x, y)
                ==> #[trigger] final(self).same(x, y),
    {
        let ghost s0 = *self;
        let ra = self.find(a);
        let rb = self.find(b);
        let ghost s2 = *self;
        let ghost n = self.parent@.len();
        proof {
            s0.lemma_rep_in_range();
            assert forall|x: int, y: int| 0 <= x < n && 0 <= y < n implies
                (#[trigger] s2.same(x, y) <==> s0.ext_same(x, y)) by {
                if x < s0.len() {
                    assert(0 <= s0.rep(x) < s0.len());
                }
                if y < s0.len() {
                    assert(0 <= s0.rep(y) < s0.len());
                }
            }
            self.lemma_rep_in_range();
            self.lemma_lens();
            assert(self.rep(ra as int) == ra);
            assert(self.rep(rb as int) == rb);
        }
        if ra == rb {
            return;
        }
        if self.rank[ra as usize] < self.rank[rb as usize] {
            self.link(ra, rb, false);
        } else if self.rank[ra as usize] > self.rank[rb as usize] {
            self.link(rb, ra, false);
        } else {
            self.link(rb, ra, true);
        }
    }

    /// Hang root `lo` under root `hi`. Union by rank: `hi`'s rank is larger,
    /// or the ranks are equal and `hi`'s rank goes up by one (`bump`).
    fn link(&mut self, lo: u32, hi: u32, bump: bool)
        requires
            old(self).wf(),
            lo < old(self).len(),
            hi < old(self).len(),
            lo != hi,
            old(self).rep(lo as int) == lo,
            old(self).rep(hi as int) == hi,
            if bump {
                old(self).rank@[lo as int] == old(self).rank@[hi as int]
            } else {
                old(self).rank@[lo as int] < old(self).rank@[hi as int]
            },
        ensures
            final(self).wf(),
            final(self).len() == old(self).len(),
            forall|x: int| 0 <= x < old(self).len() ==> #[trigger] final(self).rep(x)
                == if old(self).rep(x) == lo { hi as int } else { old(self).rep(x) },
    {
        let ghost root0 = self.root@;
        let ghost rank0 = self.rank@;
        let ghost parent0 = self.parent@;
        let ghost n = root0.len();
        proof {
            reveal(forest_wf);
        }
        self.parent.set(lo as usize, hi);
        self.root = Ghost(Seq::new(n as nat, |x: int| if root0[x] == lo { hi as int } else { root0[x] }));
        proof {
            let root = self.root@;
            assert(class_set(root, hi as int) =~= class_set(root0, hi as int) + class_set(root0, lo as int));
            assert(class_set(root0, hi as int).disjoint(class_set(root0, lo as int)));
            lemma_int_range(0, n as int);
            lemma_len_subset(class_set(root0, hi as int), set_int_range(0, n as int));
            lemma_len_subset(class_set(root0, lo as int), set_int_range(0, n as int));
            lemma_set_disjoint_lens(class_set(root0, hi as int), class_set(root0, lo as int));
            lemma_len_subset(class_set(root, hi as int), set_int_range(0, n as int));
            assert forall|r: int| 0 <= r < n && #[trigger] root[r] == r && r != hi implies
                class_set(root, r) == class_set(root0, r) by {
                assert(class_set(root, r) =~= class_set(root0, r));
            }
            if bump {
                let r = rank0[hi as int] as nat;
                lemma_pow2_unfold(r + 1);
                lemma2_to64();
                if r + 1 > 32 {
                    lemma_pow2_strictly_increases(32, r + 1);
                }
                assert(r + 1 <= 32);
            }
        }
        if bump {
            let k = self.rank[hi as usize] + 1;
            self.rank.set(hi as usize, k);
        }
        proof {
            reveal(forest_wf);
            let root = self.root@;
            assert forall|x: int| 0 <= x < n implies self.parent@[#[trigger] root[x] as int] == root[x] by {
                assert(parent0[root0[x]] == root0[x]);
            }
            assert forall|x: int| 0 <= x < n implies root[self.parent@[x] as int] == #[trigger] root[x] by {
                if x != lo {
                    assert(root0[parent0[x] as int] == root0[x]);
                }
            }
            assert forall|x: int| 0 <= x < n && #[trigger] self.parent@[x] != x implies
                self.rank@[x] < self.rank@[self.parent@[x] as int] by {
                if x != lo {
                    assert(parent0[x] != x);
                    assert(rank0[x] < rank0[parent0[x] as int]);
                    if bump && x == hi {
                        assert(parent0[hi as int] == hi);
                    }
                }
            }
            assert forall|x: int| 0 <= x < n && #[trigger] self.parent@[x] == x implies root[x] == x by {
                if x != lo {
                    assert(parent0[x] == x);
                }
            }
            assert forall|r: int| 0 <= r < n && #[trigger] root[r] == r implies
                pow2(self.rank@[r] as nat) <= class_set(root, r).len() by {
                if r != hi {
                    assert(root0[r] == r);
                    assert(class_set(root, r) == class_set(root0, r));
                    assert(r != lo);
                }
            }
        }
    }

    /// `a` and `b` may alias (same equivalence class). Both become nodes if
    /// they are not.
    pub fn may_alias(&mut self, a: u32, b: u32) -> (res: bool)
        requires
            old(self).wf(),
        ensures
            final(self).wf(),
            final(self).len() == vstd::math::max(vstd::math::max(old(self).len() as int, a + 1), b + 1),
            forall|x: int, y: int| 0 <= x < final(self).len() && 0 <= y < final(self).len() ==>
                (#[trigger] final(self).same(x, y) <==> old(self).ext_same(x, y)),
            res == old(self).ext_same(a as int, b as int),
    {
        let ghost s0 = *self;
        let ra = self.find(a);
        let rb = self.find(b);
        proof {
            let n = self.len();
            s0.lemma_rep_in_range();
            assert forall|x: int, y: int| 0 <= x < n && 0 <= y < n implies
                (#[trigger] self.same(x, y) <==> s0.ext_same(x, y)) by {
                if x < s0.len() {
                    assert(0 <= s0.rep(x) < s0.len());
                }
                if y < s0.len() {
                    assert(0 <= s0.rep(y) < s0.len());
                }
            }
            assert(self.same(a as int, b as int) == (ra == rb));
        }
        ra == rb
    }
}

} // verus!
