//! Call graph in CSR (compressed sparse row) form, forward and reverse, with
//! the breadth-first reachability queries that serve as the reference for
//! every faster reachability structure.

use vstd::prelude::*;
use crate::index::bitset::{bits_of, bitset_with_capacity, bitset_contains, bitset_insert, bitset_put};
use fixedbitset::FixedBitSet;

verus! {

/// `slice::sort_unstable` on edge pairs: the same multiset of pairs, now in
/// the lexicographic order that `Ord` gives tuples.
#[verifier::external_body]
pub(crate) fn sort_edges(v: &mut Vec<(u32, u32)>)
    ensures
        final(v)@.to_multiset() == old(v)@.to_multiset(),
        sorted_pairs(final(v)@),
{
    v.sort_unstable()
}

/// Strict lexicographic order on edges, the order of `(u32, u32)`'s `Ord`.
pub open spec fn pair_lt(a: (u32, u32), b: (u32, u32)) -> bool {
    a.0 < b.0 || (a.0 == b.0 && a.1 < b.1)
}

pub open spec fn pair_le(a: (u32, u32), b: (u32, u32)) -> bool {
    a == b || pair_lt(a, b)
}

pub open spec fn sorted_pairs(s: Seq<(u32, u32)>) -> bool {
    forall|i: int, j: int| 0 <= i < j < s.len() ==> pair_le(#[trigger] s[i], #[trigger] s[j])
}

#[verifier::opaque]
pub open spec fn strictly_sorted_pairs(s: Seq<(u32, u32)>) -> bool {
    forall|i: int, j: int| 0 <= i < j < s.len() ==> pair_lt(#[trigger] s[i], #[trigger] s[j])
}

/// Well-formed CSR arrays over `n` nodes: `off[v]..off[v + 1]` delimits the
/// strictly increasing list of `v`'s neighbours in `tgt`.
pub open spec fn csr_wf(n: nat, off: Seq<u32>, tgt: Seq<u32>) -> bool {
    &&& off.len() == n + 1
    &&& off[0] == 0
    &&& off[n as int] == tgt.len()
    &&& forall|i: int, j: int| 0 <= i <= j <= n ==> #[trigger] off[i] <= #[trigger] off[j]
    &&& forall|p: int| 0 <= p < tgt.len() ==> #[trigger] tgt[p] < n
    &&& forall|v: int| 0 <= v < n ==> strictly_increasing(#[trigger] csr_list(off, tgt, v))
}

pub open spec fn strictly_increasing(s: Seq<u32>) -> bool {
    forall|i: int, j: int| 0 <= i < j < s.len() ==> #[trigger] s[i] < #[trigger] s[j]
}

/// `x` is in the neighbour list of `v`.
pub open spec fn csr_has(off: Seq<u32>, tgt: Seq<u32>, v: int, x: int) -> bool {
    exists|p: int| off[v] <= p < off[v + 1] && #[trigger] tgt[p] == x
}

/// The neighbour list of `v`.
pub open spec fn csr_list(off: Seq<u32>, tgt: Seq<u32>, v: int) -> Seq<u32> {
    tgt.subrange(off[v] as int, off[v + 1] as int)
}

/// A directed graph over node ids `0..n`, stored in CSR both forward
/// (`offsets`/`targets`) and reverse (`rev_offsets`/`rev_targets`).
#[derive(Clone, Debug, Default)]
pub struct CsrGraph {
    pub n: u32,
    pub offsets: Vec<u32>,
    pub targets: Vec<u32>,
    pub rev_offsets: Vec<u32>,
    pub rev_targets: Vec<u32>,
}

impl CsrGraph {
    /// The node count.
    pub open spec fn spec_n(&self) -> nat {
        self.n as nat
    }

    /// Both directions are well-formed CSR and describe the same edges.
    pub open spec fn wf(&self) -> bool {
        &&& self.spec_n() <= u32::MAX
        &&& self.spec_n() < usize::MAX
        &&& csr_wf(self.spec_n(), self.offsets@, self.targets@)
        &&& csr_wf(self.spec_n(), self.rev_offsets@, self.rev_targets@)
        &&& forall|s: int, d: int|
            0 <= s < self.spec_n() && 0 <= d < self.spec_n() ==> (csr_has(self.offsets@, self.targets@, s, d)
                <==> csr_has(self.rev_offsets@, self.rev_targets@, d, s))
    }

    /// There is an edge `s -> d`.
    #[verifier::opaque]
    pub open spec fn edge(&self, s: int, d: int) -> bool {
        0 <= s < self.spec_n() && csr_has(self.offsets@, self.targets@, s, d)
    }
}

// ---------------------------------------------------------------------------
// Counting edges by one of their endpoints, the arithmetic behind CSR.

/// The endpoint an edge is grouped by: its source (`by_src`) or its target.
pub open spec fn key_of(e: (u32, u32), by_src: bool) -> u32 {
    if by_src { e.0 } else { e.1 }
}

/// The endpoint an edge contributes to its group's list.
pub open spec fn other_of(e: (u32, u32), by_src: bool) -> u32 {
    if by_src { e.1 } else { e.0 }
}

/// Number of edges among the first `k` whose key is `v`.
pub open spec fn cnt_eq(es: Seq<(u32, u32)>, by_src: bool, v: int, k: int) -> nat
    decreases k,
{
    if k <= 0 {
        0
    } else {
        cnt_eq(es, by_src, v, k - 1) + (if key_of(es[k - 1], by_src) == v { 1nat } else { 0nat })
    }
}

/// Number of edges among the first `k` whose key is below `v`.
pub open spec fn cnt_lt(es: Seq<(u32, u32)>, by_src: bool, v: int, k: int) -> nat
    decreases k,
{
    if k <= 0 {
        0
    } else {
        cnt_lt(es, by_src, v, k - 1) + (if key_of(es[k - 1], by_src) < v { 1nat } else { 0nat })
    }
}

proof fn lemma_cnt_bounds(es: Seq<(u32, u32)>, by_src: bool, v: int, k: int)
    requires
        0 <= k,
    ensures
        cnt_eq(es, by_src, v, k) <= k,
        cnt_lt(es, by_src, v, k) + cnt_eq(es, by_src, v, k) <= k,
        cnt_lt(es, by_src, v + 1, k) == cnt_lt(es, by_src, v, k) + cnt_eq(es, by_src, v, k),
    decreases k,
{
    if k > 0 {
        lemma_cnt_bounds(es, by_src, v, k - 1);
    }
}

proof fn lemma_cnt_lt_mono(es: Seq<(u32, u32)>, by_src: bool, v: int, w: int, k: int)
    requires
        0 <= k,
        v <= w,
    ensures
        cnt_lt(es, by_src, v, k) <= cnt_lt(es, by_src, w, k),
    decreases k,
{
    if k > 0 {
        lemma_cnt_lt_mono(es, by_src, v, w, k - 1);
    }
}

proof fn lemma_cnt_lt_all(es: Seq<(u32, u32)>, by_src: bool, n: int, k: int)
    requires
        0 <= k <= es.len(),
        forall|j: int| 0 <= j < es.len() ==> key_of(#[trigger] es[j], by_src) < n,
    ensures
        cnt_lt(es, by_src, n, k) == k,
    decreases k,
{
    if k > 0 {
        lemma_cnt_lt_all(es, by_src, n, k - 1);
    }
}

proof fn lemma_cnt_eq_mono(es: Seq<(u32, u32)>, by_src: bool, v: int, j: int, k: int)
    requires
        0 <= j <= k,
    ensures
        cnt_eq(es, by_src, v, j) <= cnt_eq(es, by_src, v, k),
        j < k && key_of(es[j], by_src) == v ==> cnt_eq(es, by_src, v, j) < cnt_eq(es, by_src, v, k),
    decreases k - j,
{
    if j < k {
        lemma_cnt_eq_mono(es, by_src, v, j, k - 1);
        if j < k - 1 {
            lemma_cnt_eq_mono(es, by_src, v, j + 1, k - 1);
        }
    }
}

proof fn lemma_cnt_hit(es: Seq<(u32, u32)>, by_src: bool, v: int, k: int, t: int)
    requires
        0 <= k,
        0 <= t < cnt_eq(es, by_src, v, k),
    ensures
        exists|j: int| 0 <= j < k && key_of(#[trigger] es[j], by_src) == v && cnt_eq(es, by_src, v, j) == t,
    decreases k,
{
    if t < cnt_eq(es, by_src, v, k - 1) {
        lemma_cnt_hit(es, by_src, v, k - 1, t);
        let j = choose|j: int| 0 <= j < k - 1 && key_of(#[trigger] es[j], by_src) == v && cnt_eq(es, by_src, v, j) == t;
        assert(0 <= j < k && key_of(es[j], by_src) == v && cnt_eq(es, by_src, v, j) == t);
    } else {
        assert(key_of(es[k - 1], by_src) == v && cnt_eq(es, by_src, v, k - 1) == t);
    }
}

/// Offsets of a CSR grouping of `es` by `by_src`: `off[v]` edges have a key
/// below `v`.
fn csr_offsets(es: &Vec<(u32, u32)>, n: u32, by_src: bool) -> (off: Vec<u32>)
    requires
        n < usize::MAX,
        es@.len() <= u32::MAX,
        forall|j: int| 0 <= j < es@.len() ==> key_of(#[trigger] es@[j], by_src) < n,
    ensures
        off@.len() == n + 1,
        forall|v: int| 0 <= v <= n ==> #[trigger] off@[v] == cnt_lt(es@, by_src, v, es@.len() as int),
{
    let m = es.len();
    let mut counts: Vec<u32> = vec![0u32; n as usize + 1];
    let mut k: usize = 0;
    while k < m
        invariant
            k <= m == es@.len(),
            m <= u32::MAX,
            counts@.len() == n + 1,
            counts@[0] == 0,
            forall|v: int| 0 <= v < n ==> #[trigger] counts@[v + 1] == cnt_eq(es@, by_src, v, k as int),
            forall|j: int| 0 <= j < es@.len() ==> key_of(#[trigger] es@[j], by_src) < n,
        decreases m - k,
    {
        let e = es[k];
        let v = if by_src { e.0 } else { e.1 };
        proof {
            lemma_cnt_bounds(es@, by_src, v as int, k as int);
            assert forall|w: int| 0 <= w < n implies #[trigger] cnt_eq(es@, by_src, w, (k + 1) as int)
                == cnt_eq(es@, by_src, w, k as int) + (if w == v { 1nat } else { 0nat }) by {}
        }
        counts.set(v as usize + 1, counts[v as usize + 1] + 1);
        k = k + 1;
    }
    proof {
        lemma_cnt_zero(es@, by_src, m as int);
        assert forall|v: int| 0 < v <= n implies #[trigger] counts@[v] == cnt_eq(es@, by_src, v - 1, m as int) by {
            assert(counts@[(v - 1) + 1] == cnt_eq(es@, by_src, v - 1, m as int));
        }
    }
    let mut i: usize = 0;
    while i < n as usize
        invariant
            i <= n,
            counts@.len() == n + 1,
            m == es@.len(),
            m <= u32::MAX,
            forall|v: int| 0 <= v <= i ==> #[trigger] counts@[v] == cnt_lt(es@, by_src, v, m as int),
            forall|v: int| i < v <= n ==> #[trigger] counts@[v] == cnt_eq(es@, by_src, v - 1, m as int),
        decreases n - i,
    {
        proof {
            lemma_cnt_bounds(es@, by_src, i as int, m as int);
        }
        counts.set(i + 1, counts[i + 1] + counts[i]);
        i = i + 1;
    }
    proof {
        assert forall|v: int| 0 <= v <= n implies #[trigger] counts@[v] == cnt_lt(es@, by_src, v, m as int) by {
            if v == 0 {
                assert(cnt_lt(es@, by_src, 0, m as int) == 0) by {
                    lemma_cnt_lt_mono(es@, by_src, 0, 0, m as int);
                    lemma_cnt_zero(es@, by_src, m as int);
                }
            }
        }
    }
    counts
}

proof fn lemma_cnt_zero(es: Seq<(u32, u32)>, by_src: bool, k: int)
    requires
        0 <= k,
    ensures
        cnt_lt(es, by_src, 0, k) == 0,
    decreases k,
{
    if k > 0 {
        lemma_cnt_zero(es, by_src, k - 1);
    }
}


/// Lays the `other` endpoints of `es` out in key order: edge `j` lands in
/// slot `off[key] + (number of earlier edges with the same key)`.
fn csr_fill(es: &Vec<(u32, u32)>, n: u32, off: &Vec<u32>, by_src: bool) -> (tgt: Vec<u32>)
    requires
        es@.len() <= u32::MAX,
        forall|j: int| 0 <= j < es@.len() ==> key_of(#[trigger] es@[j], by_src) < n,
        off@.len() == n + 1,
        forall|v: int| 0 <= v <= n ==> #[trigger] off@[v] == cnt_lt(es@, by_src, v, es@.len() as int),
    ensures
        tgt@.len() == es@.len(),
        forall|j: int| 0 <= j < es@.len() ==>
            tgt@[off@[key_of(es@[j], by_src) as int] + cnt_eq(es@, by_src, key_of(es@[j], by_src) as int, j)]
                == other_of(#[trigger] es@[j], by_src),
{
    let m = es.len();
    let mut tgt: Vec<u32> = vec![0u32; m];
    let mut cursor: Vec<u32> = off.clone();
    proof {
        assert(cursor@ =~= off@);
    }
    let mut k: usize = 0;
    while k < m
        invariant
            k <= m == es@.len(),
            m <= u32::MAX,
            tgt@.len() == m,
            cursor@.len() == n + 1,
            off@.len() == n + 1,
            forall|j: int| 0 <= j < es@.len() ==> key_of(#[trigger] es@[j], by_src) < n,
            forall|v: int| 0 <= v <= n ==> #[trigger] off@[v] == cnt_lt(es@, by_src, v, m as int),
            forall|v: int| 0 <= v < n ==> #[trigger] cursor@[v] == off@[v] + cnt_eq(es@, by_src, v, k as int),
            forall|j: int| 0 <= j < k ==>
                tgt@[off@[key_of(es@[j], by_src) as int] + cnt_eq(es@, by_src, key_of(es@[j], by_src) as int, j)]
                    == other_of(#[trigger] es@[j], by_src),
        decreases m - k,
    {
        let e = es[k];
        let v = if by_src { e.0 } else { e.1 };
        let x = if by_src { e.1 } else { e.0 };
        proof {
            lemma_cnt_eq_mono(es@, by_src, v as int, k as int, m as int);
            lemma_cnt_bounds(es@, by_src, v as int, m as int);
            lemma_cnt_bounds(es@, by_src, v as int + 1, m as int);
        }
        let pos = cursor[v as usize];
        let ghost old_tgt = tgt@;
        tgt.set(pos as usize, x);
        cursor.set(v as usize, pos + 1);
        proof {
            assert forall|j: int| 0 <= j < k + 1 implies
                tgt@[off@[key_of(es@[j], by_src) as int] + cnt_eq(es@, by_src, key_of(es@[j], by_src) as int, j)]
                    == other_of(#[trigger] es@[j], by_src) by {
                if j < k {
                    let kj = key_of(es@[j], by_src) as int;
                    lemma_cnt_eq_mono(es@, by_src, kj, j, m as int);
                    lemma_cnt_bounds(es@, by_src, kj, m as int);
                    lemma_cnt_bounds(es@, by_src, kj + 1, m as int);
                    if kj == v {
                        lemma_cnt_eq_mono(es@, by_src, v as int, j, k as int);
                    } else if kj < v {
                        lemma_cnt_eq_mono(es@, by_src, kj, j, m as int);
                        lemma_cnt_bounds(es@, by_src, kj, m as int);
                        lemma_cnt_lt_mono(es@, by_src, kj + 1, v as int, m as int);
                    } else {
                        lemma_cnt_lt_mono(es@, by_src, v as int + 1, kj, m as int);
                    }
                    assert(old_tgt[off@[key_of(es@[j], by_src) as int] + cnt_eq(es@, by_src, key_of(es@[j], by_src) as int, j)]
                        == other_of(es@[j], by_src));
                }
            }
            assert forall|w: int| 0 <= w < n implies #[trigger] cnt_eq(es@, by_src, w, (k + 1) as int)
                == cnt_eq(es@, by_src, w, k as int) + (if w == v { 1nat } else { 0nat }) by {}
        }
        k = k + 1;
    }
    tgt
}

proof fn lemma_segment_of(off: Seq<u32>, n: int, p: int, v: int)
    requires
        0 <= v <= n,
        off.len() == n + 1,
        off[0] == 0,
        0 <= p < off[v],
    ensures
        exists|w: int| 0 <= w < v && #[trigger] off[w] <= p < off[w + 1],
    decreases v,
{
    if v > 0 {
        if p < off[v - 1] {
            lemma_segment_of(off, n, p, v - 1);
            let w = choose|w: int| 0 <= w < v - 1 && #[trigger] off[w] <= p < off[w + 1];
            assert(0 <= w < v && off[w] <= p < off[w + 1]);
        } else {
            assert(off[v - 1] <= p < off[(v - 1) + 1]);
        }
    }
}

/// Slot `t` of the segment of `v` holds the endpoint of the edge of rank
/// `t` among the edges keyed `v`.
pub open spec fn slot_filled(es: Seq<(u32, u32)>, by_src: bool, off: Seq<u32>, tgt: Seq<u32>, v: int, t: int) -> bool {
    exists|j: int| 0 <= j < es.len() && key_of(#[trigger] es[j], by_src) == v && cnt_eq(es, by_src, v, j) == t
        && tgt[off[v] + t] == other_of(es[j], by_src)
}

/// The offsets of a grouping of `es` by `by_src`.
pub open spec fn offsets_ok(es: Seq<(u32, u32)>, n: u32, by_src: bool, off: Seq<u32>) -> bool {
    &&& off.len() == n + 1
    &&& forall|v: int| 0 <= v <= n ==> #[trigger] off[v] == cnt_lt(es, by_src, v, es.len() as int)
}

/// Every edge's endpoint sits at its slot.
#[verifier::opaque]
pub open spec fn fill_ok(es: Seq<(u32, u32)>, by_src: bool, off: Seq<u32>, tgt: Seq<u32>) -> bool {
    forall|j: int| 0 <= j < es.len() ==>
        tgt[off[key_of(es[j], by_src) as int] + cnt_eq(es, by_src, key_of(es[j], by_src) as int, j)]
            == other_of(#[trigger] es[j], by_src)
}

pub open spec fn edges_below(es: Seq<(u32, u32)>, n: u32) -> bool {
    forall|j: int| 0 <= j < es.len() ==> (#[trigger] es[j]).0 < n && es[j].1 < n
}

proof fn lemma_offsets_shape(es: Seq<(u32, u32)>, n: u32, by_src: bool, off: Seq<u32>)
    requires
        edges_below(es, n),
        offsets_ok(es, n, by_src, off),
    ensures
        off[0] == 0,
        off[n as int] == es.len(),
        forall|i: int, j: int| 0 <= i <= j <= n ==> #[trigger] off[i] <= #[trigger] off[j],
        forall|v: int| 0 <= v < n ==> off[v + 1] == off[v] + #[trigger] cnt_eq(es, by_src, v, es.len() as int),
{
    let m = es.len() as int;
    assert forall|j: int| 0 <= j < m implies key_of(#[trigger] es[j], by_src) < n by {}
    lemma_cnt_zero(es, by_src, m);
    lemma_cnt_lt_all(es, by_src, n as int, m);
    assert forall|i: int, j: int| 0 <= i <= j <= n implies #[trigger] off[i] <= #[trigger] off[j] by {
        lemma_cnt_lt_mono(es, by_src, i, j, m);
    }
    assert forall|v: int| 0 <= v < n implies off[v + 1] == off[v] + #[trigger] cnt_eq(es, by_src, v, m) by {
        lemma_cnt_bounds(es, by_src, v, m);
    }
}

proof fn lemma_slot_filled_at(es: Seq<(u32, u32)>, n: u32, by_src: bool, off: Seq<u32>, tgt: Seq<u32>,
    v: int, t: int)
    requires
        edges_below(es, n),
        offsets_ok(es, n, by_src, off),
        tgt.len() == es.len(),
        fill_ok(es, by_src, off, tgt),
        0 <= v < n,
        0 <= t < off[v + 1] - off[v],
    ensures
        slot_filled(es, by_src, off, tgt, v, t),
{
    let m = es.len() as int;
    reveal(fill_ok);
    lemma_cnt_bounds(es, by_src, v, m);
    lemma_cnt_hit(es, by_src, v, m, t);
    let j = choose|j: int| 0 <= j < m && key_of(#[trigger] es[j], by_src) == v && cnt_eq(es, by_src, v, j) == t;
    assert(tgt[off[key_of(es[j], by_src) as int] + cnt_eq(es, by_src, key_of(es[j], by_src) as int, j)]
        == other_of(es[j], by_src));
}

proof fn lemma_slots_filled(es: Seq<(u32, u32)>, n: u32, by_src: bool, off: Seq<u32>, tgt: Seq<u32>)
    requires
        edges_below(es, n),
        offsets_ok(es, n, by_src, off),
        tgt.len() == es.len(),
        fill_ok(es, by_src, off, tgt),
    ensures
        forall|v: int, t: int| 0 <= v < n && 0 <= t < off[v + 1] - off[v] ==>
            #[trigger] slot_filled(es, by_src, off, tgt, v, t),
{
    assert forall|v: int, t: int| 0 <= v < n && 0 <= t < off[v + 1] - off[v] implies
        #[trigger] slot_filled(es, by_src, off, tgt, v, t) by {
        lemma_slot_filled_at(es, n, by_src, off, tgt, v, t);
    }
}

/// The arrays built by `csr_offsets` and `csr_fill` from strictly sorted
/// edges are well-formed CSR whose lists hold exactly the edges' endpoints.
proof fn lemma_csr_built(es: Seq<(u32, u32)>, n: u32, by_src: bool, off: Seq<u32>, tgt: Seq<u32>)
    requires
        strictly_sorted_pairs(es),
        edges_below(es, n),
        offsets_ok(es, n, by_src, off),
        tgt.len() == es.len(),
        fill_ok(es, by_src, off, tgt),
    ensures
        csr_wf(n as nat, off, tgt),
        forall|v: int, x: int| 0 <= v < n ==> (csr_has(off, tgt, v, x) <==>
            exists|j: int| 0 <= j < es.len() && key_of(#[trigger] es[j], by_src) == v && other_of(es[j], by_src) == x),
{
    let m = es.len() as int;
    lemma_offsets_shape(es, n, by_src, off);
    lemma_slots_filled(es, n, by_src, off, tgt);
    lemma_csr_targets_below(es, n, by_src, off, tgt);
    lemma_csr_sorted(es, n, by_src, off, tgt);
    lemma_csr_members(es, n, by_src, off, tgt);
}

proof fn lemma_csr_targets_below(es: Seq<(u32, u32)>, n: u32, by_src: bool, off: Seq<u32>, tgt: Seq<u32>)
    requires
        edges_below(es, n),
        offsets_ok(es, n, by_src, off),
        tgt.len() == es.len(),
        fill_ok(es, by_src, off, tgt),
    ensures
        forall|p: int| 0 <= p < tgt.len() ==> #[trigger] tgt[p] < n,
{
    lemma_offsets_shape(es, n, by_src, off);
    lemma_slots_filled(es, n, by_src, off, tgt);
    assert forall|p: int| 0 <= p < tgt.len() implies #[trigger] tgt[p] < n by {
        lemma_segment_of(off, n as int, p, n as int);
        let v = choose|w: int| 0 <= w < n && #[trigger] off[w] <= p < off[w + 1];
        let t = p - off[v];
        assert(slot_filled(es, by_src, off, tgt, v, t));
        let j = choose|j: int| 0 <= j < es.len() && key_of(#[trigger] es[j], by_src) == v && cnt_eq(es, by_src, v, j) == t
            && tgt[off[v] + t] == other_of(es[j], by_src);
        assert(tgt[p] == other_of(es[j], by_src));
    }
}

proof fn lemma_csr_pair_sorted(es: Seq<(u32, u32)>, n: u32, by_src: bool, off: Seq<u32>, tgt: Seq<u32>,
    v: int, a: int, b: int)
    requires
        strictly_sorted_pairs(es),
        0 <= v < n,
        0 <= a < b,
        slot_filled(es, by_src, off, tgt, v, a),
        slot_filled(es, by_src, off, tgt, v, b),
    ensures
        tgt[off[v] + a] < tgt[off[v] + b],
{
    let ja = choose|j: int| 0 <= j < es.len() && key_of(#[trigger] es[j], by_src) == v && cnt_eq(es, by_src, v, j) == a
        && tgt[off[v] + a] == other_of(es[j], by_src);
    let jb = choose|j: int| 0 <= j < es.len() && key_of(#[trigger] es[j], by_src) == v && cnt_eq(es, by_src, v, j) == b
        && tgt[off[v] + b] == other_of(es[j], by_src);
    if jb <= ja {
        lemma_cnt_eq_mono(es, by_src, v, jb, ja);
    }
    assert(ja < jb);
    reveal(strictly_sorted_pairs);
    assert(pair_lt(es[ja], es[jb]));
}

proof fn lemma_csr_sorted(es: Seq<(u32, u32)>, n: u32, by_src: bool, off: Seq<u32>, tgt: Seq<u32>)
    requires
        strictly_sorted_pairs(es),
        edges_below(es, n),
        offsets_ok(es, n, by_src, off),
        tgt.len() == es.len(),
        fill_ok(es, by_src, off, tgt),
    ensures
        forall|v: int| 0 <= v < n ==> strictly_increasing(#[trigger] csr_list(off, tgt, v)),
{
    assert forall|v: int| 0 <= v < n implies strictly_increasing(#[trigger] csr_list(off, tgt, v)) by {
        lemma_list_sorted_at(es, n, by_src, off, tgt, v);
    }
}

proof fn lemma_list_sorted_at(es: Seq<(u32, u32)>, n: u32, by_src: bool, off: Seq<u32>, tgt: Seq<u32>, v: int)
    requires
        strictly_sorted_pairs(es),
        edges_below(es, n),
        offsets_ok(es, n, by_src, off),
        tgt.len() == es.len(),
        fill_ok(es, by_src, off, tgt),
        0 <= v < n,
    ensures
        strictly_increasing(csr_list(off, tgt, v)),
{
    lemma_offsets_shape(es, n, by_src, off);
    let l = csr_list(off, tgt, v);
    assert(off[v] <= off[v + 1] <= off[n as int]);
    assert forall|a: int, b: int| 0 <= a < b < l.len() implies #[trigger] l[a] < #[trigger] l[b] by {
        lemma_slot_filled_at(es, n, by_src, off, tgt, v, a);
        lemma_slot_filled_at(es, n, by_src, off, tgt, v, b);
        lemma_csr_pair_sorted(es, n, by_src, off, tgt, v, a, b);
    }
}

proof fn lemma_fill_at(es: Seq<(u32, u32)>, by_src: bool, off: Seq<u32>, tgt: Seq<u32>, j: int)
    requires
        fill_ok(es, by_src, off, tgt),
        0 <= j < es.len(),
    ensures
        tgt[off[key_of(es[j], by_src) as int] + cnt_eq(es, by_src, key_of(es[j], by_src) as int, j)]
            == other_of(es[j], by_src),
{
    reveal(fill_ok);
}

proof fn lemma_csr_members(es: Seq<(u32, u32)>, n: u32, by_src: bool, off: Seq<u32>, tgt: Seq<u32>)
    requires
        edges_below(es, n),
        offsets_ok(es, n, by_src, off),
        tgt.len() == es.len(),
        fill_ok(es, by_src, off, tgt),
    ensures
        forall|v: int, x: int| 0 <= v < n ==> (csr_has(off, tgt, v, x) <==>
            exists|j: int| 0 <= j < es.len() && key_of(#[trigger] es[j], by_src) == v && other_of(es[j], by_src) == x),
{
    let m = es.len() as int;
    lemma_offsets_shape(es, n, by_src, off);
    lemma_slots_filled(es, n, by_src, off, tgt);
    assert forall|v: int, x: int| 0 <= v < n implies (csr_has(off, tgt, v, x) <==>
        exists|j: int| 0 <= j < m && key_of(#[trigger] es[j], by_src) == v && other_of(es[j], by_src) == x) by {
        if csr_has(off, tgt, v, x) {
            let p = choose|p: int| off[v] <= p < off[v + 1] && #[trigger] tgt[p] == x;
            let t = p - off[v];
            assert(slot_filled(es, by_src, off, tgt, v, t));
            let j = choose|j: int| 0 <= j < m && key_of(#[trigger] es[j], by_src) == v && cnt_eq(es, by_src, v, j) == t
                && tgt[off[v] + t] == other_of(es[j], by_src);
            assert(key_of(es[j], by_src) == v && other_of(es[j], by_src) == x);
        }
        if exists|j: int| 0 <= j < m && key_of(#[trigger] es[j], by_src) == v && other_of(es[j], by_src) == x {
            let j = choose|j: int| 0 <= j < m && key_of(#[trigger] es[j], by_src) == v && other_of(es[j], by_src) == x;
            lemma_cnt_eq_mono(es, by_src, v, j, m);
            let p = off[v] + cnt_eq(es, by_src, v, j);
            lemma_fill_at(es, by_src, off, tgt, j);
            assert(off[v] <= p < off[v + 1] && tgt[p] == x);
        }
    }
}

/// Keeps the first of every run of equal pairs of a sorted sequence.
pub(crate) fn dedup_sorted(v: &Vec<(u32, u32)>) -> (res: Vec<(u32, u32)>)
    requires
        sorted_pairs(v@),
    ensures
        strictly_sorted_pairs(res@),
        res@.len() <= v@.len(),
        res@.to_set() == v@.to_set(),
{
    broadcast use vstd::seq_lib::group_seq_properties;
    let mut res: Vec<(u32, u32)> = Vec::new();
    let mut i: usize = 0;
    while i < v.len()
        invariant
            i <= v@.len(),
            sorted_pairs(v@),
            res@.len() <= i,
            forall|a: int, b: int| 0 <= a < b < res@.len() ==> pair_lt(#[trigger] res@[a], #[trigger] res@[b]),
            res@.to_set() == v@.subrange(0, i as int).to_set(),
            i > 0 ==> res@.len() > 0 && res@.last() == v@[i - 1],
        decreases v@.len() - i,
    {
        let e = v[i];
        let fresh = if res.len() == 0 {
            true
        } else {
            let last = res[res.len() - 1];
            last.0 != e.0 || last.1 != e.1
        };
        let ghost old_res = res@;
        proof {
            assert(v@.subrange(0, i + 1) =~= v@.subrange(0, i as int).push(e));
            v@.subrange(0, i as int).lemma_push_to_set_commute(e);
            old_res.lemma_push_to_set_commute(e);
        }
        if fresh {
            res.push(e);
            proof {
                if i > 0 {
                    assert(pair_le(v@[i - 1], v@[i as int]));
                }
                assert forall|a: int, b: int| 0 <= a < b < res@.len() implies pair_lt(#[trigger] res@[a], #[trigger] res@[b]) by {
                    if b == res@.len() - 1 && a < b {
                        if a < old_res.len() - 1 {
                            assert(pair_lt(old_res[a], old_res.last()));
                        }
                    }
                }
            }
        } else {
            proof {
                assert(old_res.to_set().contains(e)) by {
                    assert(old_res.contains(old_res.last()));
                }
                assert(res@.to_set() =~= v@.subrange(0, i as int).to_set().insert(e));
            }
        }
        i = i + 1;
    }
    proof {
        reveal(strictly_sorted_pairs);
        assert(v@.subrange(0, i as int) =~= v@);
    }
    res
}

impl CsrGraph {
    /// Build a CSR graph over nodes `0..n` from an edge list; duplicate
    /// edges collapse and each neighbour list comes out in increasing order.
    pub fn from_edges(n: u32, edges: Vec<(u32, u32)>) -> (g: Self)
        requires
            n < usize::MAX,
            forall|i: int| 0 <= i < edges@.len() ==> (#[trigger] edges@[i]).0 < n && edges@[i].1 < n,
            edges@.to_set().len() <= u32::MAX,
        ensures
            g.wf(),
            g.spec_n() == n,
            forall|s: u32, d: u32| g.edge(s as int, d as int) <==> edges@.contains((s, d)),
            g.targets@.len() == edges@.to_set().len(),
    {
        let mut sorted = edges;
        let ghost orig = sorted@;
        sort_edges(&mut sorted);
        let es = dedup_sorted(&sorted);
        proof {
            broadcast use vstd::seq_lib::group_to_multiset_ensures;
            assert forall|e: (u32, u32)| sorted@.contains(e) <==> orig.contains(e) by {
                assert(sorted@.contains(e) <==> sorted@.to_multiset().count(e) > 0);
                assert(orig.contains(e) <==> orig.to_multiset().count(e) > 0);
            }
            assert(sorted@.to_set() =~= orig.to_set());
            assert forall|e: (u32, u32)| es@.contains(e) <==> orig.contains(e) by {
                assert(es@.to_set().contains(e) <==> sorted@.to_set().contains(e));
            }
            reveal(strictly_sorted_pairs);
            assert(es@.no_duplicates()) by {
                assert forall|a: int, b: int| 0 <= a < es@.len() && 0 <= b < es@.len() && a != b
                    implies es@[a] != es@[b] by {
                    if a < b {
                        assert(pair_lt(es@[a], es@[b]));
                    } else {
                        assert(pair_lt(es@[b], es@[a]));
                    }
                }
            }
            es@.unique_seq_to_set();
            assert forall|j: int| 0 <= j < es@.len() implies (#[trigger] es@[j]).0 < n && es@[j].1 < n by {
                assert(orig.contains(es@[j]));
            }
            assert forall|j: int| 0 <= j < es@.len() implies key_of(#[trigger] es@[j], true) < n by {}
            assert forall|j: int| 0 <= j < es@.len() implies key_of(#[trigger] es@[j], false) < n by {}
        }
        let offsets = csr_offsets(&es, n, true);
        let targets = csr_fill(&es, n, &offsets, true);
        let rev_offsets = csr_offsets(&es, n, false);
        let rev_targets = csr_fill(&es, n, &rev_offsets, false);
        proof {
            reveal(fill_ok);
            lemma_csr_built(es@, n, true, offsets@, targets@);
            lemma_csr_built(es@, n, false, rev_offsets@, rev_targets@);
            assert forall|s: int, d: int| 0 <= s < n && 0 <= d < n implies
                (csr_has(offsets@, targets@, s, d) <==> csr_has(rev_offsets@, rev_targets@, d, s)) by {
                if csr_has(offsets@, targets@, s, d) {
                    let j = choose|j: int| 0 <= j < es@.len() && key_of(#[trigger] es@[j], true) == s && other_of(es@[j], true) == d;
                    assert(key_of(es@[j], false) == d && other_of(es@[j], false) == s);
                }
                if csr_has(rev_offsets@, rev_targets@, d, s) {
                    let j = choose|j: int| 0 <= j < es@.len() && key_of(#[trigger] es@[j], false) == d && other_of(es@[j], false) == s;
                    assert(key_of(es@[j], true) == s && other_of(es@[j], true) == d);
                }
            }
            assert forall|s: u32, d: u32| csr_has(offsets@, targets@, s as int, d as int) && s < n
                <==> orig.contains((s, d)) by {
                if orig.contains((s, d)) {
                    assert(es@.contains((s, d)));
                    let j = choose|j: int| 0 <= j < es@.len() && es@[j] == (s, d);
                    assert(key_of(es@[j], true) == s && other_of(es@[j], true) == d);
                }
                if csr_has(offsets@, targets@, s as int, d as int) && s < n {
                    let j = choose|j: int| 0 <= j < es@.len() && key_of(#[trigger] es@[j], true) == s && other_of(es@[j], true) == d;
                    assert(es@[j] == (s, d));
                    assert(es@.contains((s, d)));
                }
            }
        }
        let g = CsrGraph { n, offsets, targets, rev_offsets, rev_targets };
        proof {
            reveal(CsrGraph::edge);
        }
        g
    }

    pub fn node_count(&self) -> (res: u32)
        ensures
            res == self.spec_n(),
    {
        self.n
    }

    pub fn edge_count(&self) -> (res: usize)
        ensures
            res == self.targets@.len(),
    {
        self.targets.len()
    }

    /// Out-edges of `s`, in increasing order.
    pub fn out(&self, s: u32) -> (res: &[u32])
        requires
            self.wf(),
            s < self.spec_n(),
        ensures
            res@ == csr_list(self.offsets@, self.targets@, s as int),
    {
        let start = self.offsets[s as usize] as usize;
        let end = self.offsets[s as usize + 1] as usize;
        &self.targets.as_slice()[start..end]
    }

    /// In-edges of `d` (callers, in the call graph), in increasing order.
    pub fn rev(&self, d: u32) -> (res: &[u32])
        requires
            self.wf(),
            d < self.spec_n(),
        ensures
            res@ == csr_list(self.rev_offsets@, self.rev_targets@, d as int),
    {
        let start = self.rev_offsets[d as usize] as usize;
        let end = self.rev_offsets[d as usize + 1] as usize;
        &self.rev_targets.as_slice()[start..end]
    }

    /// Out-degree of `s`.
    pub fn out_deg(&self, s: u32) -> (res: usize)
        requires
            self.wf(),
            s < self.spec_n(),
        ensures
            res == csr_list(self.offsets@, self.targets@, s as int).len(),
    {
        self.out(s).len()
    }
}

// ---------------------------------------------------------------------------
// Reachability.

/// `p` is a walk along edges of `g`.
pub open spec fn is_path(g: CsrGraph, p: Seq<int>) -> bool {
    &&& p.len() >= 1
    &&& forall|i: int| #![trigger p[i]] 0 <= i < p.len() - 1 ==> g.edge(p[i], p[i + 1])
}

/// `v` can be reached from `u` by following zero or more edges.
pub open spec fn reaches(g: CsrGraph, u: int, v: int) -> bool {
    exists|p: Seq<int>| #[trigger] is_path(g, p) && p[0] == u && p.last() == v
}

/// Some node whose bit is set in `start` reaches `v`.
pub open spec fn reached_from_bits(g: CsrGraph, start: Seq<bool>, v: int) -> bool {
    exists|x: int| 0 <= x < start.len() && #[trigger] start[x] && reaches(g, x, v)
}

/// Every edge out of a set node leads to a set node.
pub open spec fn closed_under_edges(g: CsrGraph, bits: Seq<bool>) -> bool {
    forall|u: int, v: int| 0 <= u < bits.len() && bits[u] && #[trigger] g.edge(u, v) ==> 0 <= v < bits.len() && bits[v]
}

/// Number of clear bits.
pub open spec fn count_unset(b: Seq<bool>) -> nat
    decreases b.len(),
{
    if b.len() == 0 {
        0
    } else {
        count_unset(b.drop_last()) + (if b.last() { 0nat } else { 1nat })
    }
}

pub proof fn lemma_count_unset_set(b: Seq<bool>, i: int)
    requires
        0 <= i < b.len(),
    ensures
        count_unset(b.update(i, true)) == count_unset(b) - (if b[i] { 0int } else { 1int }),
        count_unset(b.update(i, true)) <= count_unset(b),
    decreases b.len(),
{
    if i == b.len() - 1 {
        assert(b.update(i, true).drop_last() =~= b.drop_last());
    } else {
        lemma_count_unset_set(b.drop_last(), i);
        assert(b.update(i, true).drop_last() =~= b.drop_last().update(i, true));
    }
}

pub proof fn lemma_reaches_refl(g: CsrGraph, u: int)
    ensures
        reaches(g, u, u),
{
    let p = seq![u];
    assert(is_path(g, p));
}

pub proof fn lemma_reaches_step(g: CsrGraph, x: int, u: int, v: int)
    requires
        reaches(g, x, u),
        g.edge(u, v),
    ensures
        reaches(g, x, v),
{
    let p = choose|p: Seq<int>| #[trigger] is_path(g, p) && p[0] == x && p.last() == u;
    let q = p.push(v);
    assert forall|i: int| #![trigger q[i]] 0 <= i < q.len() - 1 implies g.edge(q[i], q[i + 1]) by {
        if i < p.len() - 1 {
            assert(q[i] == p[i] && q[i + 1] == p[i + 1]);
        }
    }
    assert(is_path(g, q));
}

pub proof fn lemma_reaches_trans(g: CsrGraph, x: int, u: int, v: int)
    requires
        reaches(g, x, u),
        reaches(g, u, v),
    ensures
        reaches(g, x, v),
{
    let p = choose|p: Seq<int>| #[trigger] is_path(g, p) && p[0] == x && p.last() == u;
    let q = choose|q: Seq<int>| #[trigger] is_path(g, q) && q[0] == u && q.last() == v;
    let r = p + q.drop_first();
    assert forall|i: int| #![trigger r[i]] 0 <= i < r.len() - 1 implies g.edge(r[i], r[i + 1]) by {
        if i < p.len() - 1 {
            assert(r[i] == p[i] && r[i + 1] == p[i + 1]);
        } else if i == p.len() - 1 {
            assert(r[i] == q[0] && r[i + 1] == q[1]);
        } else {
            let k = i - p.len() + 1;
            assert(r[i] == q[k] && r[i + 1] == q[k + 1]);
        }
    }
    assert(is_path(g, r));
}

/// A node reached from a different node is the target of an edge, hence a
/// node of the graph.
pub proof fn lemma_reached_in_range(g: CsrGraph, u: int, v: int)
    requires
        g.wf(),
        reaches(g, u, v),
        u != v,
    ensures
        0 <= v < g.spec_n(),
{
    let p = choose|p: Seq<int>| #[trigger] is_path(g, p) && p[0] == u && p.last() == v;
    let k = p.len() - 2;
    assert(g.edge(p[k], p[k + 1]));
    reveal(CsrGraph::edge);
    let q = choose|q: int| g.offsets@[p[k]] <= q < g.offsets@[p[k] + 1] && #[trigger] g.targets@[q] == p[k + 1];
    assert(g.offsets@[p[k] + 1] <= g.offsets@[g.spec_n() as int]);
}

/// A set closed under edges that holds the start of a walk holds its end.
pub proof fn lemma_closed_holds_reached(g: CsrGraph, bits: Seq<bool>, x: int, v: int)
    requires
        closed_under_edges(g, bits),
        0 <= x < bits.len(),
        bits[x],
        reaches(g, x, v),
    ensures
        0 <= v < bits.len() && bits[v],
{
    let p = choose|p: Seq<int>| #[trigger] is_path(g, p) && p[0] == x && p.last() == v;
    lemma_closed_holds_prefix(g, bits, p, p.len() - 1);
}

proof fn lemma_closed_holds_prefix(g: CsrGraph, bits: Seq<bool>, p: Seq<int>, i: int)
    requires
        closed_under_edges(g, bits),
        is_path(g, p),
        0 <= p[0] < bits.len() && bits[p[0]],
        0 <= i < p.len(),
    ensures
        0 <= p[i] < bits.len() && bits[p[i]],
    decreases i,
{
    if i > 0 {
        lemma_closed_holds_prefix(g, bits, p, i - 1);
        assert(g.edge(p[i - 1], p[i]));
    }
}

impl CsrGraph {
    /// Depth-first marking from the nodes on `stack` (exactly the set bits of
    /// `visited`); stops early, returning `true`, on meeting `target`.
    #[verifier::rlimit(40)]
    fn explore(&self, visited: &mut FixedBitSet, stack: &mut Vec<u32>, target: Option<u32>) -> (found: bool)
        requires
            self.wf(),
            bits_of(*old(visited)).len() == self.spec_n(),
            old(stack)@.no_duplicates(),
            forall|u: int| 0 <= u < self.spec_n() ==> (bits_of(*old(visited))[u] <==> old(stack)@.contains(u as u32)),
            forall|i: int| 0 <= i < old(stack)@.len() ==> #[trigger] old(stack)@[i] < self.spec_n(),
            target matches Some(t) ==> !(t < self.spec_n() && bits_of(*old(visited))[t as int]),
        ensures
            bits_of(*final(visited)).len() == self.spec_n(),
            forall|w: int| 0 <= w < self.spec_n() && #[trigger] bits_of(*final(visited))[w] ==>
                reached_from_bits(*self, bits_of(*old(visited)), w),
            forall|w: int| 0 <= w < self.spec_n() && bits_of(*old(visited))[w] ==> #[trigger] bits_of(*final(visited))[w],
            found ==> (target matches Some(t) && reached_from_bits(*self, bits_of(*old(visited)), t as int)),
            !found ==> closed_under_edges(*self, bits_of(*final(visited))),
            !found ==> (target matches Some(t) ==> !(t < self.spec_n() && bits_of(*final(visited))[t as int])),
    {
        let ghost start = bits_of(*visited);
        let ghost n = self.spec_n() as int;
        proof {
            assert forall|w: int| 0 <= w < n && #[trigger] bits_of(*visited)[w] implies reached_from_bits(*self, start, w) by {
                lemma_reaches_refl(*self, w);
            }
        }
        loop
            invariant
                start == bits_of(*old(visited)),
                self.wf(),
                n == self.spec_n(),
                bits_of(*visited).len() == n,
                start.len() == n,
                stack@.no_duplicates(),
                forall|i: int| 0 <= i < stack@.len() ==> #[trigger] stack@[i] < n && bits_of(*visited)[stack@[i] as int],
                forall|u: int, v: int| 0 <= u < n && bits_of(*visited)[u] && !stack@.contains(u as u32)
                    && #[trigger] self.edge(u, v) ==> 0 <= v < n && bits_of(*visited)[v],
                forall|w: int| 0 <= w < n && #[trigger] bits_of(*visited)[w] ==> reached_from_bits(*self, start, w),
                forall|w: int| 0 <= w < n && start[w] ==> #[trigger] bits_of(*visited)[w],
                target matches Some(t) ==> !(t < n && bits_of(*visited)[t as int]),
            decreases 2 * count_unset(bits_of(*visited)) + stack@.len(),
        {
            let ghost m0 = 2 * count_unset(bits_of(*visited)) + stack@.len();
            let ghost stack_before = stack@;
            match stack.pop() {
                None => {
                    proof {
                        assert forall|u: int, v: int| 0 <= u < n && bits_of(*visited)[u]
                            && #[trigger] self.edge(u, v) implies 0 <= v < n && bits_of(*visited)[v] by {
                            assert(!stack@.contains(u as u32));
                        }
                    }
                    return false;
                },
                Some(u) => {
                    proof {
                        assert(stack_before =~= stack@.push(u));
                        assert(stack_before[stack_before.len() - 1] == u);
                        assert(!stack@.contains(u)) by {
                            if stack@.contains(u) {
                                let k = choose|k: int| 0 <= k < stack@.len() && stack@[k] == u;
                                assert(stack_before[k] == stack_before[stack_before.len() - 1]);
                            }
                        }
                        assert forall|i: int| 0 <= i < stack@.len() implies #[trigger] stack@[i] < n
                            && bits_of(*visited)[stack@[i] as int] by {
                            assert(stack@[i] == stack_before[i]);
                        }
                    }
                    let nbrs = self.out(u);
                    let mut i: usize = 0;
                    while i < nbrs.len()
                        invariant
                            self.wf(),
                            n == self.spec_n(),
                            0 <= u < n,
                            nbrs@ == csr_list(self.offsets@, self.targets@, u as int),
                            i <= nbrs@.len(),
                            bits_of(*visited).len() == n,
                            start.len() == n,
                            bits_of(*visited)[u as int],
                            !stack@.contains(u),
                            stack@.no_duplicates(),
                            forall|k: int| 0 <= k < stack@.len() ==> #[trigger] stack@[k] < n && bits_of(*visited)[stack@[k] as int],
                            forall|w: int, v: int| 0 <= w < n && bits_of(*visited)[w] && !stack@.contains(w as u32) && w != u
                                && #[trigger] self.edge(w, v) ==> 0 <= v < n && bits_of(*visited)[v],
                            forall|k: int| 0 <= k < i ==> bits_of(*visited)[#[trigger] nbrs@[k] as int],
                            forall|w: int| 0 <= w < n && #[trigger] bits_of(*visited)[w] ==> reached_from_bits(*self, start, w),
                            forall|w: int| 0 <= w < n && start[w] ==> #[trigger] bits_of(*visited)[w],
                            target matches Some(t) ==> !(t < n && bits_of(*visited)[t as int]),
                            2 * count_unset(bits_of(*visited)) + stack@.len() < m0,
                            start == bits_of(*old(visited)),
                        decreases nbrs@.len() - i,
                    {
                        let v = nbrs[i];
                        proof {
                            assert(self.offsets@[u as int] <= self.offsets@[u as int + 1] <= self.offsets@[n]);
                            assert(self.targets@[self.offsets@[u as int] + i] == v);
                            reveal(CsrGraph::edge);
                            assert(self.edge(u as int, v as int));
                            assert(v < n);
                            assert(reached_from_bits(*self, start, u as int));
                            let x = choose|x: int| 0 <= x < start.len() && #[trigger] start[x] && reaches(*self, x, u as int);
                            lemma_reaches_step(*self, x, u as int, v as int);
                            assert(reached_from_bits(*self, start, v as int));
                        }
                        let hit = match target {
                            Some(t) => t == v,
                            None => false,
                        };
                        if hit {
                            return true;
                        }
                        let ghost before = bits_of(*visited);
                        let ghost stack_prev = stack@;
                        let was = bitset_put(visited, v as usize);
                        proof {
                            lemma_count_unset_set(before, v as int);
                        }
                        if !was {
                            stack.push(v);
                            proof {
                                assert(stack@[stack@.len() - 1] == v);
                                assert(stack@.contains(v));
                                assert forall|k: int| 0 <= k < stack@.len() implies #[trigger] stack@[k] < n
                                    && bits_of(*visited)[stack@[k] as int] by {}
                                assert(stack@.no_duplicates()) by {
                                    assert forall|a: int, b: int| 0 <= a < stack@.len() && 0 <= b < stack@.len() && a != b
                                        implies stack@[a] != stack@[b] by {
                                        if b == stack@.len() - 1 {
                                            assert(before[stack@[a] as int]);
                                        } else if a == stack@.len() - 1 {
                                            assert(before[stack@[b] as int]);
                                        }
                                    }
                                }
                            }
                        }
                        proof {
                            assert forall|w: int| 0 <= w < n && #[trigger] bits_of(*visited)[w] implies
                                reached_from_bits(*self, start, w) by {
                                if w != v {
                                    assert(before[w]);
                                }
                            }
                            assert forall|w: int, x: int| 0 <= w < n && bits_of(*visited)[w] && !stack@.contains(w as u32) && w != u
                                && #[trigger] self.edge(w, x) implies 0 <= x < n && bits_of(*visited)[x] by {
                                if w != v {
                                    assert(before[w]);
                                    assert(!stack_prev.contains(w as u32)) by {
                                        if stack_prev.contains(w as u32) {
                                            let k = choose|k: int| 0 <= k < stack_prev.len() && stack_prev[k] == w as u32;
                                            assert(stack@[k] == w as u32);
                                        }
                                    }
                                    assert(0 <= x < n && before[x]);
                                } else {
                                    assert(was);
                                }
                            }
                        }
                        i = i + 1;
                    }
                    proof {
                        assert forall|w: int, v: int| 0 <= w < n && bits_of(*visited)[w] && !stack@.contains(w as u32)
                            && #[trigger] self.edge(w, v) implies 0 <= v < n && bits_of(*visited)[v] by {
                            if w == u {
                                reveal(CsrGraph::edge);
                                let q = choose|q: int| self.offsets@[u as int] <= q < self.offsets@[u as int + 1]
                                    && #[trigger] self.targets@[q] == v;
                                let k = q - self.offsets@[u as int];
                                assert(nbrs@[k] == v);
                            }
                        }
                    }
                },
            }
        }
    }

    /// Brute-force reachability — the reference every faster structure is
    /// checked against. `from` reaches itself.
    pub fn bfs_reachable(&self, from: u32, to: u32) -> (res: bool)
        requires
            self.wf(),
            from == to || from < self.spec_n(),
        ensures
            res == reaches(*self, from as int, to as int),
    {
        if from == to {
            proof {
                lemma_reaches_refl(*self, from as int);
            }
            return true;
        }
        let mut visited = bitset_with_capacity(self.n as usize);
        let mut stack: Vec<u32> = Vec::new();
        stack.push(from);
        bitset_insert(&mut visited, from as usize);
        let ghost start = bits_of(visited);
        proof {
            assert forall|u: int| 0 <= u < self.spec_n() implies (bits_of(visited)[u] <==> stack@.contains(u as u32)) by {
                if u == from {
                    assert(stack@[0] == from);
                }
            }
        }
        let found = self.explore(&mut visited, &mut stack, Some(to));
        proof {
            if found {
                let x = choose|x: int| 0 <= x < start.len() && #[trigger] start[x] && reaches(*self, x, to as int);
                assert(x == from);
            } else {
                if reaches(*self, from as int, to as int) {
                    lemma_reached_in_range(*self, from as int, to as int);
                    lemma_closed_holds_reached(*self, bits_of(visited), from as int, to as int);
                }
            }
        }
        found
    }

    /// All nodes reachable from `from`, including `from` itself.
    pub fn reachable_set(&self, from: u32) -> (res: FixedBitSet)
        requires
            self.wf(),
            from < self.spec_n(),
        ensures
            bits_of(res).len() == self.spec_n(),
            forall|w: int| 0 <= w < self.spec_n() ==> (#[trigger] bits_of(res)[w] <==> reaches(*self, from as int, w)),
    {
        let mut visited = bitset_with_capacity(self.n as usize);
        let mut stack: Vec<u32> = Vec::new();
        stack.push(from);
        bitset_insert(&mut visited, from as usize);
        let ghost start = bits_of(visited);
        proof {
            assert forall|u: int| 0 <= u < self.spec_n() implies (bits_of(visited)[u] <==> stack@.contains(u as u32)) by {
                if u == from {
                    assert(stack@[0] == from);
                }
            }
        }
        let _ = self.explore(&mut visited, &mut stack, None);
        proof {
            assert forall|w: int| 0 <= w < self.spec_n() implies (#[trigger] bits_of(visited)[w] <==> reaches(*self, from as int, w)) by {
                if bits_of(visited)[w] {
                    let x = choose|x: int| 0 <= x < start.len() && #[trigger] start[x] && reaches(*self, x, w);
                    assert(x == from);
                }
                if reaches(*self, from as int, w) {
                    lemma_closed_holds_reached(*self, bits_of(visited), from as int, w);
                }
            }
        }
        visited
    }

    /// Nodes reachable from any of `sources`; sources outside the graph are
    /// ignored.
    pub fn reachable_from_many(&self, sources: &[u32]) -> (res: FixedBitSet)
        requires
            self.wf(),
        ensures
            bits_of(res).len() == self.spec_n(),
            forall|w: int| 0 <= w < self.spec_n() ==> (#[trigger] bits_of(res)[w] <==>
                exists|i: int| 0 <= i < sources@.len() && sources@[i] < self.spec_n() && reaches(*self, #[trigger] sources@[i] as int, w)),
    {
        let mut visited = bitset_with_capacity(self.n as usize);
        let mut stack: Vec<u32> = Vec::new();
        let mut k: usize = 0;
        while k < sources.len()
            invariant
                self.wf(),
                k <= sources@.len(),
                bits_of(visited).len() == self.spec_n(),
                stack@.no_duplicates(),
                forall|u: int| 0 <= u < self.spec_n() ==> (bits_of(visited)[u] <==> stack@.contains(u as u32)),
                forall|i: int| 0 <= i < stack@.len() ==> #[trigger] stack@[i] < self.spec_n(),
                forall|u: int| 0 <= u < self.spec_n() ==> (bits_of(visited)[u] <==>
                    exists|i: int| 0 <= i < k && #[trigger] sources@[i] == u),
            decreases sources@.len() - k,
        {
            let s = sources[k];
            let ghost before = bits_of(visited);
            let ghost stack_before = stack@;
            if s < self.n {
                let was = bitset_put(&mut visited, s as usize);
                if !was {
                    stack.push(s);
                    proof {
                        assert(stack@.no_duplicates()) by {
                            assert forall|a: int, b: int| 0 <= a < stack@.len() && 0 <= b < stack@.len() && a != b
                                implies stack@[a] != stack@[b] by {
                                if b == stack@.len() - 1 {
                                    assert(stack_before.contains(stack@[a]));
                                } else if a == stack@.len() - 1 {
                                    assert(stack_before.contains(stack@[b]));
                                }
                            }
                        }
                    }
                }
                proof {
                    assert forall|u: int| 0 <= u < self.spec_n() implies (bits_of(visited)[u] <==> stack@.contains(u as u32)) by {
                        if u != s {
                            if stack@.contains(u as u32) && !was {
                                let j = choose|j: int| 0 <= j < stack@.len() && stack@[j] == u as u32;
                                assert(stack_before[j] == u as u32);
                            }
                            if stack_before.contains(u as u32) && !was {
                                let j = choose|j: int| 0 <= j < stack_before.len() && stack_before[j] == u as u32;
                                assert(stack@[j] == u as u32);
                            }
                        } else {
                            if !was {
                                assert(stack@[stack@.len() - 1] == s);
                            }
                        }
                    }
                    assert forall|u: int| 0 <= u < self.spec_n() implies (bits_of(visited)[u] <==>
                        exists|i: int| 0 <= i < k + 1 && #[trigger] sources@[i] == u) by {
                        if u == s {
                            assert(sources@[k as int] == u);
                        } else if exists|i: int| 0 <= i < k + 1 && #[trigger] sources@[i] == u {
                            let i = choose|i: int| 0 <= i < k + 1 && #[trigger] sources@[i] == u;
                            assert(i < k);
                        }
                    }
                }
            } else {
                proof {
                    assert forall|u: int| 0 <= u < self.spec_n() implies (bits_of(visited)[u] <==>
                        exists|i: int| 0 <= i < k + 1 && #[trigger] sources@[i] == u) by {
                        if exists|i: int| 0 <= i < k + 1 && #[trigger] sources@[i] == u {
                            let i = choose|i: int| 0 <= i < k + 1 && #[trigger] sources@[i] == u;
                            assert(i < k);
                        }
                    }
                }
            }
            k = k + 1;
        }
        let ghost start = bits_of(visited);
        let _ = self.explore(&mut visited, &mut stack, None);
        proof {
            assert forall|w: int| 0 <= w < self.spec_n() implies (#[trigger] bits_of(visited)[w] <==>
                exists|i: int| 0 <= i < sources@.len() && sources@[i] < self.spec_n() && reaches(*self, #[trigger] sources@[i] as int, w)) by {
                if bits_of(visited)[w] {
                    let x = choose|x: int| 0 <= x < start.len() && #[trigger] start[x] && reaches(*self, x, w);
                    let i = choose|i: int| 0 <= i < sources@.len() && #[trigger] sources@[i] == x;
                    assert(sources@[i] < self.spec_n() && reaches(*self, sources@[i] as int, w));
                }
                if exists|i: int| 0 <= i < sources@.len() && sources@[i] < self.spec_n() && reaches(*self, #[trigger] sources@[i] as int, w) {
                    let i = choose|i: int| 0 <= i < sources@.len() && sources@[i] < self.spec_n() && reaches(*self, #[trigger] sources@[i] as int, w);
                    let x = sources@[i] as int;
                    assert(start[x]);
                    lemma_closed_holds_reached(*self, bits_of(visited), x, w);
                }
            }
        }
        visited
    }
}

} // verus!
