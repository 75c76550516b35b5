//! A generic monotone dataflow solver: Kleene iteration to the least fixed
//! point. The lattice has finite height and the transfer functions are
//! monotone, so the iteration terminates.

use vstd::prelude::*;
use crate::index::bitset::{bits_of, bits_clean, bitset_with_capacity, bitset_len, bitset_contains, bitset_insert,
    bitset_union_with, bitset_is_subset};
use fixedbitset::FixedBitSet;

verus! {

/// A bounded-height lattice with a bottom, a join and an order.
pub trait Lattice: Clone + Sized {
    /// An element over a universe of `universe` atoms.
    spec fn well_formed(&self, universe: nat) -> bool;

    /// The lattice order.
    spec fn le(&self, other: &Self) -> bool;

    /// The height of an element; it grows along every strict step up.
    spec fn height(&self) -> nat;

    proof fn lemma_le_refl(a: &Self)
        ensures
            a.le(a),
    ;

    proof fn lemma_le_trans(a: &Self, b: &Self, c: &Self)
        requires
            a.le(b),
            b.le(c),
        ensures
            a.le(c),
    ;

    proof fn lemma_height(a: &Self, b: &Self, universe: nat)
        requires
            a.well_formed(universe),
            b.well_formed(universe),
            a.le(b),
        ensures
            a.height() <= b.height() <= universe,
            !b.le(a) ==> a.height() < b.height(),
    ;

    fn bottom(universe: usize) -> (r: Self)
        ensures
            r.well_formed(universe as nat),
            forall|x: Self| #[trigger] x.well_formed(universe as nat) ==> r.le(&x),
    ;

    fn join(&self, other: &Self) -> (r: Self)
        ensures
            forall|u: nat| self.well_formed(u) && other.well_formed(u) ==> #[trigger] r.well_formed(u),
            self.le(&r),
            other.le(&r),
            forall|z: Self| self.le(&z) && other.le(&z) ==> #[trigger] r.le(&z),
    ;

    fn less_equal(&self, other: &Self) -> (r: bool)
        ensures
            r == self.le(other),
    ;

    fn universe(&self) -> (r: usize)
        ensures
            forall|u: nat| #[trigger] self.well_formed(u) ==> r == u,
    ;
}

/// Number of set entries.
pub open spec fn popcount(s: Seq<bool>) -> nat
    decreases s.len(),
{
    if s.len() == 0 {
        0
    } else {
        popcount(s.drop_last()) + (if s.last() { 1nat } else { 0nat })
    }
}

proof fn lemma_popcount_mono(a: Seq<bool>, b: Seq<bool>)
    requires
        a.len() == b.len(),
        forall|i: int| 0 <= i < a.len() && #[trigger] a[i] ==> b[i],
    ensures
        popcount(a) <= popcount(b) <= b.len(),
        (exists|i: int| 0 <= i < a.len() && b[i] && !a[i]) ==> popcount(a) < popcount(b),
    decreases a.len(),
{
    if a.len() > 0 {
        let a0 = a.drop_last();
        let b0 = b.drop_last();
        assert forall|i: int| 0 <= i < a0.len() && #[trigger] a0[i] implies b0[i] by {
            assert(a[i]);
        }
        lemma_popcount_mono(a0, b0);
        if exists|i: int| 0 <= i < a.len() && b[i] && !a[i] {
            let i = choose|i: int| 0 <= i < a.len() && b[i] && !a[i];
            if i < a.len() - 1 {
                assert(b0[i] && !a0[i]);
            }
        }
    }
}

/// A set lattice over a finite universe: subsets ordered by inclusion,
/// joined by union.
#[derive(Debug)]
pub struct SetLattice(FixedBitSet);

impl Clone for SetLattice {
    /// A copy with the same atoms.
    fn clone(&self) -> (r: Self)
        ensures
            r@ == self@,
    {
        proof {
            use_type_invariant(self);
        }
        SetLattice(self.0.clone())
    }
}

impl View for SetLattice {
    type V = Seq<bool>;

    closed spec fn view(&self) -> Seq<bool> {
        bits_of(self.0)
    }
}

impl SetLattice {
    /// The storage holds no bit past the set's length.
    #[verifier::type_invariant]
    spec fn clean(&self) -> bool {
        bits_clean(self.0)
    }

    /// The set whose atoms are the bits of `b` below its length; bits of
    /// `b`'s storage past its length are left out.
    pub fn from_bits(b: FixedBitSet) -> (r: Self)
        ensures
            r@ == bits_of(b),
    {
        let n = bitset_len(&b);
        let mut c = bitset_with_capacity(n);
        let mut i: usize = 0;
        while i < n
            invariant
                n == bits_of(b).len(),
                i <= n,
                bits_clean(c),
                bits_of(c).len() == n,
                forall|k: int| 0 <= k < i ==> #[trigger] bits_of(c)[k] == bits_of(b)[k],
                forall|k: int| i <= k < n ==> !#[trigger] bits_of(c)[k],
            decreases n - i,
        {
            if bitset_contains(&b, i) {
                bitset_insert(&mut c, i);
            }
            i = i + 1;
        }
        proof {
            assert(bits_of(c) =~= bits_of(b));
        }
        SetLattice(c)
    }

    pub fn bits(&self) -> (r: &FixedBitSet)
        ensures
            bits_of(*r) == self@,
    {
        &self.0
    }

    /// Add atom `i`; the bit set panics past its length.
    pub fn insert(&mut self, i: usize)
        requires
            i < old(self)@.len(),
        ensures
            final(self)@ == old(self)@.update(i as int, true),
    {
        proof {
            use_type_invariant(&*self);
        }
        let mut b = bitset_with_capacity(0);
        std::mem::swap(&mut b, &mut self.0);
        bitset_insert(&mut b, i);
        self.0 = b;
    }

    pub fn contains(&self, i: usize) -> (r: bool)
        ensures
            r == (i < self@.len() && self@[i as int]),
    {
        bitset_contains(&self.0, i)
    }
}

impl Lattice for SetLattice {
    closed spec fn well_formed(&self, universe: nat) -> bool {
        self@.len() == universe
    }

    closed spec fn le(&self, other: &Self) -> bool {
        forall|i: int| 0 <= i < self@.len() && #[trigger] self@[i] ==> i < other@.len() && other@[i]
    }

    closed spec fn height(&self) -> nat {
        popcount(self@)
    }

    proof fn lemma_le_refl(a: &Self) {
    }

    proof fn lemma_le_trans(a: &Self, b: &Self, c: &Self) {
        assert forall|i: int| 0 <= i < a@.len() && #[trigger] a@[i] implies i < c@.len() && c@[i] by {
            assert(b@[i]);
        }
    }

    proof fn lemma_height(a: &Self, b: &Self, universe: nat) {
        lemma_popcount_mono(a@, b@);
    }

    fn bottom(universe: usize) -> (r: Self) {
        SetLattice(bitset_with_capacity(universe))
    }

    fn join(&self, other: &Self) -> (r: Self) {
        proof {
            use_type_invariant(self);
            use_type_invariant(other);
        }
        let mut b = self.0.clone();
        bitset_union_with(&mut b, &other.0);
        let r = SetLattice(b);
        proof {
            assert forall|z: Self| self.le(&z) && other.le(&z) implies #[trigger] r.le(&z) by {
                assert forall|i: int| 0 <= i < r@.len() && #[trigger] r@[i] implies i < z@.len() && z@[i] by {
                    if i < self@.len() && self@[i] {
                    } else {
                        assert(other@[i]);
                    }
                }
            }
            assert forall|i: int| 0 <= i < self@.len() && #[trigger] self@[i] implies i < r@.len() && r@[i] by {
                assert(r@[i]);
            }
            assert forall|i: int| 0 <= i < other@.len() && #[trigger] other@[i] implies i < r@.len() && r@[i] by {
                assert(r@[i]);
            }
        }
        r
    }

    fn less_equal(&self, other: &Self) -> (r: bool) {
        proof {
            use_type_invariant(self);
            use_type_invariant(other);
        }
        let r = bitset_is_subset(&self.0, &other.0);
        proof {
            assert(self@ == bits_of(self.0));
            assert(other@ == bits_of(other.0));
            if r {
                assert forall|i: int| 0 <= i < self@.len() && #[trigger] self@[i] implies i < other@.len() && other@[i] by {
                    assert(bits_of(self.0)[i]);
                }
            } else {
                let i = choose|i: int| !(0 <= i < bits_of(self.0).len() && #[trigger] bits_of(self.0)[i]
                    ==> i < bits_of(other.0).len() && bits_of(other.0)[i]);
                assert(self@[i]);
            }
        }
        r
    }

    fn universe(&self) -> (r: usize) {
        bitset_len(&self.0)
    }
}

/// A control-flow graph: `succ[node]` lists successors and `pred[node]`
/// predecessors, so an IN set is joined over in-edges only.
#[derive(Clone, Debug)]
pub struct Cfg {
    pub entry: usize,
    pub succ: Vec<Vec<usize>>,
    pub pred: Vec<Vec<usize>>,
}

impl Cfg {
    /// Both adjacency lists cover the same nodes, stay within them, and
    /// mirror each other.
    pub open spec fn wf(&self) -> bool {
        &&& self.succ@.len() == self.pred@.len()
        &&& forall|u: int, k: int| 0 <= u < self.succ@.len() && 0 <= k < self.succ@[u]@.len()
            ==> #[trigger] self.succ@[u]@[k] < self.succ@.len()
        &&& forall|u: int, k: int| 0 <= u < self.pred@.len() && 0 <= k < self.pred@[u]@.len()
            ==> #[trigger] self.pred@[u]@[k] < self.pred@.len()
        &&& forall|u: int, v: int| 0 <= u < self.succ@.len() && 0 <= v < self.succ@.len()
            ==> (#[trigger] self.succ@[u]@.contains(v as usize) <==> #[trigger] self.pred@[v]@.contains(u as usize))
    }

    /// `n` nodes and no edges.
    pub fn new(entry: usize, n: usize) -> (c: Self)
        ensures
            c.wf(),
            c.entry == entry,
            c.succ@.len() == n,
            forall|u: int| 0 <= u < n ==> #[trigger] c.succ@[u]@.len() == 0,
            forall|u: int| 0 <= u < n ==> #[trigger] c.pred@[u]@.len() == 0,
    {
        let mut succ: Vec<Vec<usize>> = Vec::new();
        let mut pred: Vec<Vec<usize>> = Vec::new();
        let mut i: usize = 0;
        while i < n
            invariant
                i <= n,
                succ@.len() == i,
                pred@.len() == i,
                forall|u: int| 0 <= u < i ==> #[trigger] succ@[u]@.len() == 0,
                forall|u: int| 0 <= u < i ==> #[trigger] pred@[u]@.len() == 0,
            decreases n - i,
        {
            succ.push(Vec::new());
            pred.push(Vec::new());
            i = i + 1;
        }
        let c = Cfg { entry, succ, pred };
        proof {
            assert forall|u: int, v: int| 0 <= u < c.succ@.len() && 0 <= v < c.succ@.len()
                implies (#[trigger] c.succ@[u]@.contains(v as usize) <==> #[trigger] c.pred@[v]@.contains(u as usize)) by {
                assert(c.succ@[u]@.len() == 0 && c.pred@[v]@.len() == 0);
                assert(!c.succ@[u]@.contains(v as usize));
                assert(!c.pred@[v]@.contains(u as usize));
            }
        }
        c
    }

    /// Add the edge `u -> v`; the lists panic on a node out of range.
    pub fn add_edge(&mut self, u: usize, v: usize)
        requires
            old(self).wf(),
            u < old(self).succ@.len(),
            v < old(self).succ@.len(),
        ensures
            final(self).wf(),
            final(self).entry == old(self).entry,
            final(self).succ@.len() == old(self).succ@.len(),
            final(self).succ@[u as int]@ == old(self).succ@[u as int]@.push(v),
            final(self).pred@[v as int]@ == old(self).pred@[v as int]@.push(u),
            forall|x: int| 0 <= x < old(self).succ@.len() && x != u ==> #[trigger] final(self).succ@[x] == old(self).succ@[x],
            forall|x: int| 0 <= x < old(self).succ@.len() && x != v ==> #[trigger] final(self).pred@[x] == old(self).pred@[x],
    {
        let ghost s0 = self.succ@;
        let ghost p0 = self.pred@;
        let len0 = self.succ.len();
        self.succ[u].push(v);
        self.pred[v].push(u);
        proof {
            let n = s0.len() as int;
            assert(n == len0);
            assert(self.succ@ == s0.update(u as int, self.succ@[u as int]));
            assert(self.pred@ == p0.update(v as int, self.pred@[v as int]));
            assert forall|a: int, k: int| 0 <= a < n && 0 <= k < self.succ@[a]@.len()
                implies #[trigger] self.succ@[a]@[k] < n by {
                if a == u && k == s0[a]@.len() {
                } else {
                    assert(self.succ@[a]@[k] == s0[a]@[k]);
                }
            }
            assert forall|a: int, k: int| 0 <= a < n && 0 <= k < self.pred@[a]@.len()
                implies #[trigger] self.pred@[a]@[k] < n by {
                if a == v && k == p0[a]@.len() {
                } else {
                    assert(self.pred@[a]@[k] == p0[a]@[k]);
                }
            }
            assert forall|a: int, b: int| 0 <= a < n && 0 <= b < n
                implies (#[trigger] self.succ@[a]@.contains(b as usize) <==> #[trigger] self.pred@[b]@.contains(a as usize)) by {
                let sa = self.succ@[a]@;
                let pb = self.pred@[b]@;
                if a == u {
                    assert(sa == s0[a]@.push(v));
                    assert(sa.contains(b as usize) <==> (s0[a]@.contains(b as usize) || b == v)) by {
                        if sa.contains(b as usize) {
                            let k = choose|k: int| 0 <= k < sa.len() && sa[k] == b as usize;
                            if k < s0[a]@.len() {
                                assert(s0[a]@[k] == b as usize);
                            }
                        }
                        if s0[a]@.contains(b as usize) {
                            let k = choose|k: int| 0 <= k < s0[a]@.len() && s0[a]@[k] == b as usize;
                            assert(sa[k] == b as usize);
                        }
                        if b == v {
                            assert(sa[sa.len() - 1] == v);
                        }
                    }
                }
                if b == v {
                    assert(pb == p0[b]@.push(u));
                    assert(pb.contains(a as usize) <==> (p0[b]@.contains(a as usize) || a == u)) by {
                        if pb.contains(a as usize) {
                            let k = choose|k: int| 0 <= k < pb.len() && pb[k] == a as usize;
                            if k < p0[b]@.len() {
                                assert(p0[b]@[k] == a as usize);
                            }
                        }
                        if p0[b]@.contains(a as usize) {
                            let k = choose|k: int| 0 <= k < p0[b]@.len() && p0[b]@[k] == a as usize;
                            assert(pb[k] == a as usize);
                        }
                        if a == u {
                            assert(pb[pb.len() - 1] == u);
                        }
                    }
                }
                assert(s0[a]@.contains(b as usize) <==> p0[b]@.contains(a as usize));
            }
        }
    }

    pub fn n(&self) -> (r: usize)
        ensures
            r == self.succ@.len(),
    {
        self.succ.len()
    }
}

// ---------------------------------------------------------------------------
// The dataflow equations and their least solution.

/// `z` is at least every seed of node `u` and the OUT of each of its first
/// `k` predecessors.
pub open spec fn upper_upto<L: Lattice>(cfg: Cfg, init: Seq<(usize, L)>, outs: Seq<L>, u: int, k: int, z: L) -> bool {
    &&& forall|i: int| 0 <= i < init.len() && (#[trigger] init[i]).0 == u ==> init[i].1.le(&z)
    &&& forall|j: int| 0 <= j < k ==> outs[#[trigger] cfg.pred@[u]@[j] as int].le(&z)
}

/// `z` is an upper bound of everything that flows into node `u`.
pub open spec fn upper<L: Lattice>(cfg: Cfg, init: Seq<(usize, L)>, outs: Seq<L>, u: int, z: L) -> bool {
    upper_upto(cfg, init, outs, u, cfg.pred@[u]@.len() as int, z)
}

/// `x` lies below every upper bound of what flows into node `u`.
pub open spec fn below_in<L: Lattice>(cfg: Cfg, init: Seq<(usize, L)>, outs: Seq<L>, u: int, x: L, universe: nat) -> bool {
    forall|z: L| z.well_formed(universe) && #[trigger] upper(cfg, init, outs, u, z) ==> x.le(&z)
}

/// `x` is the IN of node `u`: the least upper bound of its seeds and its
/// predecessors' OUTs.
pub open spec fn is_in<L: Lattice>(cfg: Cfg, init: Seq<(usize, L)>, outs: Seq<L>, u: int, x: L, universe: nat) -> bool {
    &&& x.well_formed(universe)
    &&& upper(cfg, init, outs, u, x)
    &&& below_in(cfg, init, outs, u, x, universe)
}

/// OUT of `u` is, up to the order, what the transfer gives on IN of `u`.
pub open spec fn fixed_at<L: Lattice, F: Fn(usize, &L) -> L>(cfg: Cfg, init: Seq<(usize, L)>, transfer: F,
    outs: Seq<L>, u: usize, universe: nat) -> bool {
    exists|x: L, r: L| is_in(cfg, init, outs, u as int, x, universe) && #[trigger] call_ensures(transfer, (u, &x), r)
        && r.le(&outs[u as int]) && outs[u as int].le(&r)
}

/// `f` is closed under the equations: the transfer of anything below a
/// node's IN stays below the node's value.
pub open spec fn post_fixed<L: Lattice, F: Fn(usize, &L) -> L>(cfg: Cfg, init: Seq<(usize, L)>, transfer: F,
    f: Seq<L>, universe: nat) -> bool {
    &&& f.len() == cfg.succ@.len()
    &&& forall|u: int| 0 <= u < f.len() ==> #[trigger] f[u].well_formed(universe)
    &&& forall|u: usize, x: L, r: L| u < f.len() && x.well_formed(universe) && below_in(cfg, init, f, u as int, x, universe)
        && #[trigger] call_ensures(transfer, (u, &x), r) ==> r.le(&f[u as int])
}

/// The transfer is callable on well-formed values, keeps them well formed,
/// and is monotone.
pub open spec fn transfer_ok<L: Lattice, F: Fn(usize, &L) -> L>(transfer: F, n: nat, universe: nat) -> bool {
    &&& forall|u: usize, x: L| u < n && x.well_formed(universe) ==> #[trigger] call_requires(transfer, (u, &x))
    &&& forall|u: usize, x: L, r: L| x.well_formed(universe) && #[trigger] call_ensures(transfer, (u, &x), r)
        ==> r.well_formed(universe)
    &&& forall|u: usize, x: L, y: L, rx: L, ry: L| x.well_formed(universe) && y.well_formed(universe) && x.le(&y)
        && #[trigger] call_ensures(transfer, (u, &x), rx) && #[trigger] call_ensures(transfer, (u, &y), ry) ==> rx.le(&ry)
}

/// Every OUT lies below the transfer of any upper bound of its inputs.
pub open spec fn rising<L: Lattice, F: Fn(usize, &L) -> L>(cfg: Cfg, init: Seq<(usize, L)>, transfer: F,
    outs: Seq<L>, universe: nat) -> bool {
    forall|u: usize, x: L, r: L| u < outs.len() && x.well_formed(universe) && upper(cfg, init, outs, u as int, x)
        && #[trigger] call_ensures(transfer, (u, &x), r) ==> outs[u as int].le(&r)
}

/// Every OUT lies below the matching value of every post-fixed point.
pub open spec fn below_post<L: Lattice, F: Fn(usize, &L) -> L>(cfg: Cfg, init: Seq<(usize, L)>, transfer: F,
    outs: Seq<L>, universe: nat) -> bool {
    forall|f: Seq<L>| #[trigger] post_fixed(cfg, init, transfer, f, universe)
        ==> forall|u: int| 0 <= u < outs.len() ==> outs[u].le(&#[trigger] f[u])
}

/// Room left below the top, summed over nodes; it falls whenever an OUT
/// rises.
pub open spec fn potential<L: Lattice>(s: Seq<L>, universe: nat) -> int
    decreases s.len(),
{
    if s.len() == 0 {
        0
    } else {
        potential(s.drop_last(), universe) + (universe - s.last().height())
    }
}

proof fn lemma_potential_nonneg<L: Lattice>(s: Seq<L>, universe: nat)
    requires
        forall|u: int| 0 <= u < s.len() ==> #[trigger] s[u].well_formed(universe),
    ensures
        potential(s, universe) >= 0,
    decreases s.len(),
{
    if s.len() > 0 {
        lemma_potential_nonneg(s.drop_last(), universe);
        L::lemma_le_refl(&s.last());
        L::lemma_height(&s.last(), &s.last(), universe);
    }
}

proof fn lemma_potential_update<L: Lattice>(s: Seq<L>, u: int, x: L, universe: nat)
    requires
        0 <= u < s.len(),
    ensures
        potential(s.update(u, x), universe) == potential(s, universe) - x.height() + s[u].height(),
    decreases s.len(),
{
    let t = s.update(u, x);
    if u == s.len() - 1 {
        assert(t.drop_last() =~= s.drop_last());
    } else {
        lemma_potential_update(s.drop_last(), u, x, universe);
        assert(t.drop_last() =~= s.drop_last().update(u, x));
    }
}

/// Upper bounds of a node's inputs do not depend on OUTs outside its
/// predecessors.
proof fn lemma_upper_same<L: Lattice>(cfg: Cfg, init: Seq<(usize, L)>, o1: Seq<L>, o2: Seq<L>, u: int)
    requires
        forall|j: int| 0 <= j < cfg.pred@[u]@.len() ==> o1[#[trigger] cfg.pred@[u]@[j] as int] == o2[cfg.pred@[u]@[j] as int],
    ensures
        forall|z: L| #[trigger] upper(cfg, init, o1, u, z) == upper(cfg, init, o2, u, z),
{
    assert forall|z: L| #[trigger] upper(cfg, init, o1, u, z) == upper(cfg, init, o2, u, z) by {
        if upper(cfg, init, o1, u, z) {
            assert forall|j: int| 0 <= j < cfg.pred@[u]@.len() implies o2[#[trigger] cfg.pred@[u]@[j] as int].le(&z) by {
                assert(o1[cfg.pred@[u]@[j] as int].le(&z));
            }
        }
        if upper(cfg, init, o2, u, z) {
            assert forall|j: int| 0 <= j < cfg.pred@[u]@.len() implies o1[#[trigger] cfg.pred@[u]@[j] as int].le(&z) by {
                assert(o2[cfg.pred@[u]@[j] as int].le(&z));
            }
        }
    }
}

/// Raising OUTs pointwise keeps every upper bound of the raised inputs an
/// upper bound of the old ones.
proof fn lemma_upper_lower<L: Lattice>(cfg: Cfg, init: Seq<(usize, L)>, lo: Seq<L>, hi: Seq<L>, u: int, z: L)
    requires
        cfg.wf(),
        0 <= u < cfg.succ@.len(),
        lo.len() == cfg.succ@.len(),
        hi.len() == lo.len(),
        forall|v: int| 0 <= v < lo.len() ==> #[trigger] lo[v].le(&hi[v]),
        upper(cfg, init, hi, u, z),
    ensures
        upper(cfg, init, lo, u, z),
{
    assert forall|j: int| 0 <= j < cfg.pred@[u]@.len() implies lo[#[trigger] cfg.pred@[u]@[j] as int].le(&z) by {
        let p = cfg.pred@[u]@[j] as int;
        assert(lo[p].le(&hi[p]));
        assert(hi[p].le(&z));
        L::lemma_le_trans(&lo[p], &hi[p], &z);
    }
}

/// What the first `m` entries of `init` seed node `u` with: nothing when
/// none names `u`, else the least upper bound of those that do.
pub open spec fn seed_ok<L: Lattice>(init: Seq<(usize, L)>, m: int, u: int, s: Option<L>, universe: nat) -> bool {
    match s {
        None => forall|i: int| 0 <= i < m ==> (#[trigger] init[i]).0 != u,
        Some(x) => {
            &&& x.well_formed(universe)
            &&& forall|i: int| 0 <= i < m && (#[trigger] init[i]).0 == u ==> init[i].1.le(&x)
            &&& forall|z: L| z.well_formed(universe)
                && (forall|i: int| 0 <= i < m && (#[trigger] init[i]).0 == u ==> init[i].1.le(&z)) ==> #[trigger] x.le(&z)
        },
    }
}

/// Raising OUT of `u` to the transfer of its IN keeps every OUT below the
/// transfer of its inputs' upper bounds, and below every post-fixed point.
proof fn lemma_raise<L: Lattice, F: Fn(usize, &L) -> L>(cfg: Cfg, init: Seq<(usize, L)>, transfer: F, out: Seq<L>,
    u: usize, inu: L, new_out: L, universe: nat)
    requires
        cfg.wf(),
        out.len() == cfg.succ@.len(),
        u < out.len(),
        forall|v: int| 0 <= v < out.len() ==> #[trigger] out[v].well_formed(universe),
        new_out.well_formed(universe),
        transfer_ok(transfer, out.len(), universe),
        is_in(cfg, init, out, u as int, inu, universe),
        call_ensures(transfer, (u, &inu), new_out),
        rising(cfg, init, transfer, out, universe),
        below_post(cfg, init, transfer, out, universe),
        out[u as int].le(&new_out),
    ensures
        rising(cfg, init, transfer, out.update(u as int, new_out), universe),
        below_post(cfg, init, transfer, out.update(u as int, new_out), universe),
{
    let o2 = out.update(u as int, new_out);
    assert forall|v: int| 0 <= v < out.len() implies #[trigger] out[v].le(&o2[v]) by {
        if v != u {
            L::lemma_le_refl(&out[v]);
        }
    }
    assert forall|v: usize, x: L, r: L| v < o2.len() && x.well_formed(universe) && upper(cfg, init, o2, v as int, x)
        && #[trigger] call_ensures(transfer, (v, &x), r) implies o2[v as int].le(&r) by {
        lemma_upper_lower(cfg, init, out, o2, v as int, x);
        if v == u {
            assert(inu.le(&x));
        }
    }
    assert forall|f: Seq<L>| #[trigger] post_fixed(cfg, init, transfer, f, universe)
        implies forall|w: int| 0 <= w < o2.len() ==> o2[w].le(&#[trigger] f[w]) by {
        assert forall|w: int| 0 <= w < o2.len() implies o2[w].le(&#[trigger] f[w]) by {
            if w == u {
                assert(forall|v: int| 0 <= v < out.len() ==> out[v].le(&#[trigger] f[v]));
                assert forall|z: L| z.well_formed(universe) && #[trigger] upper(cfg, init, f, u as int, z)
                    implies inu.le(&z) by {
                    lemma_upper_lower(cfg, init, out, f, u as int, z);
                }
                assert(below_in(cfg, init, f, u as int, inu, universe));
            } else {
                assert(out[w].le(&f[w]));
            }
        }
    }
}

/// Forward monotone dataflow to the least fixed point.
///
/// `init` seeds nodes with extra facts; `transfer` is the per-node monotone
/// transfer. Returns the OUT value of every node: a solution of
/// OUT[u] = transfer(u, seeds of u joined with OUT of u's predecessors),
/// below every value assignment that the equations cannot raise.
pub fn solve_forward<L: Lattice>(cfg: &Cfg, universe: usize, init: &[(usize, L)], transfer: impl Fn(usize, &L) -> L)
    -> (res: Vec<L>)
    requires
        cfg.wf(),
        forall|i: int| 0 <= i < init@.len() ==> (#[trigger] init@[i]).0 < cfg.succ@.len()
            && init@[i].1.well_formed(universe as nat),
        transfer_ok(transfer, cfg.succ@.len(), universe as nat),
    ensures
        res@.len() == cfg.succ@.len(),
        forall|u: int| 0 <= u < res@.len() ==> #[trigger] res@[u].well_formed(universe as nat),
        forall|u: usize| u < res@.len() ==> #[trigger] fixed_at(*cfg, init@, transfer, res@, u, universe as nat),
        below_post(*cfg, init@, transfer, res@, universe as nat),
{
    let n = cfg.n();
    let ghost un = universe as nat;
    let mut out: Vec<L> = Vec::new();
    let mut i: usize = 0;
    while i < n
        invariant
            un == universe as nat,
            i <= n,
            out@.len() == i,
            forall|u: int| 0 <= u < i ==> #[trigger] out@[u].well_formed(un),
            forall|u: int, x: L| 0 <= u < i && x.well_formed(un) ==> #[trigger] out@[u].le(&x),
        decreases n - i,
    {
        let b = L::bottom(universe);
        out.push(b);
        proof {
            assert forall|u: int, x: L| 0 <= u < i + 1 && x.well_formed(un) implies #[trigger] out@[u].le(&x) by {
                if u == i {
                    assert(x.well_formed(universe as nat));
                }
            }
        }
        i = i + 1;
    }
    let mut seeds: Vec<Option<L>> = Vec::new();
    i = 0;
    while i < n
        invariant
            i <= n,
            seeds@.len() == i,
            forall|u: int| 0 <= u < i ==> #[trigger] seeds@[u] is None,
        decreases n - i,
    {
        seeds.push(None);
        i = i + 1;
    }
    let mut m: usize = 0;
    while m < init.len()
        invariant
            n == cfg.succ@.len(),
            un == universe as nat,
            m <= init@.len(),
            seeds@.len() == n,
            forall|i: int| 0 <= i < init@.len() ==> (#[trigger] init@[i]).0 < n && init@[i].1.well_formed(un),
            forall|u: int| 0 <= u < n ==> seed_ok(init@, m as int, u, #[trigger] seeds@[u], un),
        decreases init@.len() - m,
    {
        let node = init[m].0;
        let val = &init[m].1;
        let cur = match &seeds[node] {
            Some(s) => s.join(val),
            None => L::bottom(universe).join(val),
        };
        let ghost old_seed = seeds@[node as int];
        seeds.set(node, Some(cur));
        proof {
            assert(init@[m as int].1 == *val);
            assert forall|u: int| 0 <= u < n implies seed_ok(init@, m + 1, u, #[trigger] seeds@[u], un) by {
                if u == node {
                    assert(cur.well_formed(un));
                    assert forall|i: int| 0 <= i < m + 1 && (#[trigger] init@[i]).0 == u implies init@[i].1.le(&cur) by {
                        if i < m {
                            let s0 = old_seed.unwrap();
                            assert(init@[i].1.le(&s0));
                            L::lemma_le_trans(&init@[i].1, &s0, &cur);
                        }
                    }
                    assert forall|z: L| z.well_formed(un)
                        && (forall|i: int| 0 <= i < m + 1 && (#[trigger] init@[i]).0 == u ==> init@[i].1.le(&z))
                        implies #[trigger] cur.le(&z) by {
                        assert(init@[m as int].0 == u);
                        assert(val.le(&z));
                        match old_seed {
                            Some(s0) => {
                                assert(forall|i: int| 0 <= i < m && (#[trigger] init@[i]).0 == u ==> init@[i].1.le(&z));
                                assert(s0.le(&z));
                            },
                            None => {},
                        }
                    }
                } else {
                    assert(seed_ok(init@, m as int, u, seeds@[u], un));
                    match seeds@[u] {
                        Some(x) => {
                            assert forall|z: L| z.well_formed(un)
                                && (forall|i: int| 0 <= i < m + 1 && (#[trigger] init@[i]).0 == u ==> init@[i].1.le(&z))
                                implies #[trigger] x.le(&z) by {
                                assert(forall|i: int| 0 <= i < m && (#[trigger] init@[i]).0 == u ==> init@[i].1.le(&z));
                            }
                        },
                        None => {},
                    }
                }
            }
        }
        m = m + 1;
    }
    let mut worklist: Vec<usize> = Vec::new();
    i = 0;
    while i < n
        invariant
            i <= n,
            worklist@.len() == i,
            forall|k: int| 0 <= k < i ==> #[trigger] worklist@[k] == k,
        decreases n - i,
    {
        worklist.push(i);
        i = i + 1;
    }
    proof {
        assert forall|u: usize| u < n implies worklist@.contains(u) by {
            assert(worklist@[u as int] == u);
        }
        assert forall|u: usize, x: L, r: L| u < out@.len() && x.well_formed(un) && upper(*cfg, init@, out@, u as int, x)
            && #[trigger] call_ensures(transfer, (u, &x), r) implies out@[u as int].le(&r) by {
            assert(r.well_formed(un));
        }
        assert forall|f: Seq<L>| #[trigger] post_fixed(*cfg, init@, transfer, f, un)
            implies forall|w: int| 0 <= w < out@.len() ==> out@[w].le(&#[trigger] f[w]) by {
            assert forall|w: int| 0 <= w < out@.len() implies out@[w].le(&#[trigger] f[w]) by {
                assert(f[w].well_formed(un));
            }
        }
        lemma_potential_nonneg(out@, un);
    }
    loop
        invariant
            cfg.wf(),
            n == cfg.succ@.len(),
            un == universe as nat,
            forall|i: int| 0 <= i < init@.len() ==> (#[trigger] init@[i]).0 < n && init@[i].1.well_formed(un),
            transfer_ok(transfer, n as nat, un),
            seeds@.len() == n,
            forall|u: int| 0 <= u < n ==> seed_ok(init@, init@.len() as int, u, #[trigger] seeds@[u], un),
            out@.len() == n,
            forall|u: int| 0 <= u < n ==> #[trigger] out@[u].well_formed(un),
            forall|k: int| 0 <= k < worklist@.len() ==> #[trigger] worklist@[k] < n,
            rising(*cfg, init@, transfer, out@, un),
            below_post(*cfg, init@, transfer, out@, un),
            forall|u: usize| u < n && !worklist@.contains(u) ==> #[trigger] fixed_at(*cfg, init@, transfer, out@, u, un),
            potential(out@, un) >= 0,
        ensures
            worklist@.len() == 0,
        decreases potential(out@, un), worklist@.len(),
    {
        let ghost w0 = worklist@;
        let popped = worklist.pop();
        if popped.is_none() {
            break;
        }
        let u = popped.unwrap();
        proof {
            assert(w0 =~= worklist@.push(u));
            assert(w0[w0.len() - 1] == u);
        }
        let mut inu = L::bottom(universe);
        match &seeds[u] {
            Some(s) => {
                inu = inu.join(s);
            },
            None => {},
        }
        proof {
            assert(seed_ok(init@, init@.len() as int, u as int, seeds@[u as int], un));
            assert forall|i: int| 0 <= i < init@.len() && (#[trigger] init@[i]).0 == u implies init@[i].1.le(&inu) by {
                match seeds@[u as int] {
                    Some(s) => {
                        assert(init@[i].1.le(&s));
                        L::lemma_le_trans(&init@[i].1, &s, &inu);
                    },
                    None => {},
                }
            }
            assert forall|z: L| z.well_formed(un) && #[trigger] upper_upto(*cfg, init@, out@, u as int, 0, z)
                implies inu.le(&z) by {
                match seeds@[u as int] {
                    Some(s) => {
                        assert(s.le(&z));
                    },
                    None => {},
                }
            }
        }
        let mut k: usize = 0;
        while k < cfg.pred[u].len()
            invariant
                cfg.wf(),
                n == cfg.succ@.len(),
                u < n,
                out@.len() == n,
                forall|v: int| 0 <= v < n ==> #[trigger] out@[v].well_formed(un),
                k <= cfg.pred@[u as int]@.len(),
                inu.well_formed(un),
                upper_upto(*cfg, init@, out@, u as int, k as int, inu),
                forall|z: L| z.well_formed(un) && #[trigger] upper_upto(*cfg, init@, out@, u as int, k as int, z)
                    ==> inu.le(&z),
            decreases cfg.pred@[u as int]@.len() - k,
        {
            let p = cfg.pred[u][k];
            proof {
                assert(p < n);
            }
            let ghost in0 = inu;
            inu = inu.join(&out[p]);
            proof {
                assert forall|j: int| 0 <= j < k + 1 implies out@[#[trigger] cfg.pred@[u as int]@[j] as int].le(&inu) by {
                    if j < k {
                        L::lemma_le_trans(&out@[cfg.pred@[u as int]@[j] as int], &in0, &inu);
                    }
                }
                assert forall|i: int| 0 <= i < init@.len() && (#[trigger] init@[i]).0 == u implies init@[i].1.le(&inu) by {
                    L::lemma_le_trans(&init@[i].1, &in0, &inu);
                }
                assert forall|z: L| z.well_formed(un) && #[trigger] upper_upto(*cfg, init@, out@, u as int, k + 1, z)
                    implies inu.le(&z) by {
                    assert(upper_upto(*cfg, init@, out@, u as int, k as int, z));
                    assert(out@[cfg.pred@[u as int]@[k as int] as int].le(&z));
                }
            }
            k = k + 1;
        }
        proof {
            assert forall|z: L| z.well_formed(un) && #[trigger] upper(*cfg, init@, out@, u as int, z) implies inu.le(&z) by {
                assert(upper_upto(*cfg, init@, out@, u as int, k as int, z));
            }
            assert(is_in(*cfg, init@, out@, u as int, inu, un));
        }
        let new_out = transfer(u, &inu);
        proof {
            assert(new_out.well_formed(un));
            assert(out@[u as int].le(&new_out));
        }
        let changed = !new_out.less_equal(&out[u]) || !out[u].less_equal(&new_out);
        if changed {
            let ghost o0 = out@;
            let ghost w1 = worklist@;
            proof {
                lemma_raise(*cfg, init@, transfer, o0, u, inu, new_out, un);
                L::lemma_height(&o0[u as int], &new_out, un);
                lemma_potential_update(o0, u as int, new_out, un);
            }
            out.set(u, new_out);
            let mut j: usize = 0;
            while j < cfg.succ[u].len()
                invariant
                    cfg.wf(),
                    n == cfg.succ@.len(),
                    u < n,
                    j <= cfg.succ@[u as int]@.len(),
                    worklist@ == w1 + cfg.succ@[u as int]@.take(j as int),
                decreases cfg.succ@[u as int]@.len() - j,
            {
                worklist.push(cfg.succ[u][j]);
                proof {
                    assert(cfg.succ@[u as int]@.take(j + 1) =~= cfg.succ@[u as int]@.take(j as int).push(cfg.succ@[u as int]@[j as int]));
                }
                j = j + 1;
            }
            proof {
                let o1 = out@;
                let succ_u = cfg.succ@[u as int]@;
                assert(succ_u.take(succ_u.len() as int) =~= succ_u);
                assert(o1 == o0.update(u as int, new_out));
                lemma_potential_nonneg(o1, un);
                assert forall|k: int| 0 <= k < worklist@.len() implies #[trigger] worklist@[k] < n by {
                    if k < w1.len() {
                        assert(worklist@[k] == w1[k]);
                        assert(w1[k] == w0[k]);
                    } else {
                        assert(worklist@[k] == succ_u[k - w1.len()]);
                    }
                }
                assert forall|v: usize| v < n && !worklist@.contains(v) implies #[trigger] fixed_at(*cfg, init@, transfer, o1, v, un) by {
                    assert(!succ_u.contains(v)) by {
                        if succ_u.contains(v) {
                            let t = choose|t: int| 0 <= t < succ_u.len() && succ_u[t] == v;
                            assert(worklist@[w1.len() + t] == v);
                        }
                    }
                    assert((v as int) as usize == v);
                    assert((u as int) as usize == u);
                    assert(cfg.succ@[u as int]@.contains((v as int) as usize) <==> cfg.pred@[v as int]@.contains((u as int) as usize));
                    assert(!cfg.pred@[v as int]@.contains(u));
                    assert forall|j: int| 0 <= j < cfg.pred@[v as int]@.len()
                        implies o0[#[trigger] cfg.pred@[v as int]@[j] as int] == o1[cfg.pred@[v as int]@[j] as int] by {
                        if cfg.pred@[v as int]@[j] as int == u as int {
                            assert(cfg.pred@[v as int]@.contains(u));
                        }
                    }
                    lemma_upper_same(*cfg, init@, o0, o1, v as int);
                    if v == u {
                        assert(upper(*cfg, init@, o1, u as int, inu));
                        assert forall|z: L| z.well_formed(un) && #[trigger] upper(*cfg, init@, o1, u as int, z) implies inu.le(&z) by {
                            assert(upper(*cfg, init@, o0, u as int, z));
                        }
                        assert(is_in(*cfg, init@, o1, u as int, inu, un));
                        L::lemma_le_refl(&new_out);
                        assert(call_ensures(transfer, (u, &inu), new_out));
                    } else {
                        assert(!w0.contains(v)) by {
                            if w0.contains(v) {
                                let t = choose|t: int| 0 <= t < w0.len() && w0[t] == v;
                                assert(t < w1.len());
                                assert(worklist@[t] == v);
                            }
                        }
                        assert(fixed_at(*cfg, init@, transfer, o0, v, un));
                        let (x, r) = choose|x: L, r: L| is_in(*cfg, init@, o0, v as int, x, un)
                            && #[trigger] call_ensures(transfer, (v, &x), r) && r.le(&o0[v as int]) && o0[v as int].le(&r);
                        assert(upper(*cfg, init@, o1, v as int, x));
                        assert forall|z: L| z.well_formed(un) && #[trigger] upper(*cfg, init@, o1, v as int, z) implies x.le(&z) by {
                            assert(upper(*cfg, init@, o0, v as int, z));
                        }
                        assert(is_in(*cfg, init@, o1, v as int, x, un));
                    }
                }
            }
        } else {
            proof {
                assert forall|k: int| 0 <= k < worklist@.len() implies #[trigger] worklist@[k] < n by {
                    assert(worklist@[k] == w0[k]);
                }
                assert forall|v: usize| v < n && !worklist@.contains(v) implies #[trigger] fixed_at(*cfg, init@, transfer, out@, v, un) by {
                    if v == u {
                        assert(call_ensures(transfer, (u, &inu), new_out));
                    } else {
                        assert(!w0.contains(v)) by {
                            if w0.contains(v) {
                                let t = choose|t: int| 0 <= t < w0.len() && w0[t] == v;
                                assert(worklist@[t] == v);
                            }
                        }
                    }
                }
            }
        }
    }
    proof {
        assert forall|u: usize| u < out@.len() implies #[trigger] fixed_at(*cfg, init@, transfer, out@, u, un) by {
            assert(!worklist@.contains(u));
        }
    }
    out
}

} // verus!
