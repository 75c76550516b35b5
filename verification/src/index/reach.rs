//! Reachability accelerators over a DAG: sorted-label intersection, 2-hop
//! reachability labels built by pruned landmark labelling, and a
//! bit-parallel BFS that answers 64 single-source queries per traversal.
//!
//! Every answer is stated against `graph::reaches`, the meaning of the
//! brute-force breadth-first search.

use vstd::prelude::*;
use crate::index::graph::{CsrGraph, csr_list, reaches, lemma_reaches_refl, lemma_reaches_step};

verus! {

// ---------------------------------------------------------------------------
// Sorted-slice intersection.

/// Non-decreasing order.
pub open spec fn sorted_u32(s: Seq<u32>) -> bool {
    forall|i: int, j: int| 0 <= i <= j < s.len() ==> #[trigger] s[i] <= #[trigger] s[j]
}

/// The two sequences share an element.
pub open spec fn meet(a: Seq<u32>, b: Seq<u32>) -> bool {
    exists|i: int, j: int| 0 <= i < a.len() && 0 <= j < b.len() && #[trigger] a[i] == #[trigger] b[j]
}

/// Do two sorted slices share an element? A merge walk that stops at the
/// first common value.
pub fn intersects(a: &[u32], b: &[u32]) -> (res: bool)
    requires
        sorted_u32(a@),
        sorted_u32(b@),
    ensures
        res == meet(a@, b@),
{
    let mut i: usize = 0;
    let mut j: usize = 0;
    while i < a.len() && j < b.len()
        invariant
            sorted_u32(a@),
            sorted_u32(b@),
            i <= a@.len(),
            j <= b@.len(),
            forall|x: int, y: int| 0 <= x < a@.len() && 0 <= y < b@.len() && a@[x] == b@[y] ==> i <= x && j <= y,
        decreases a@.len() - i + b@.len() - j,
    {
        if a[i] < b[j] {
            i = i + 1;
        } else if b[j] < a[i] {
            j = j + 1;
        } else {
            return true;
        }
    }
    false
}

// ---------------------------------------------------------------------------
// Bit-parallel breadth-first search.

/// Bit `b` (0 = least significant) of `x`.
pub open spec fn bit(x: u64, b: u64) -> bool {
    (x >> b) & 1u64 == 1u64
}

/// Some source in lane `b` (its index modulo 64 is `b`) among the first
/// `upto` reaches `w`.
pub open spec fn lane_reaches(g: CsrGraph, sources: Seq<u32>, upto: int, b: u64, w: int) -> bool {
    exists|j: int| 0 <= j < upto && j % 64 == b && sources[j] < g.spec_n()
        && #[trigger] reaches(g, sources[j] as int, w)
}

proof fn lemma_bit_or(x: u64, y: u64)
    ensures
        forall|b: u64| b < 64 ==> (#[trigger] bit(x | y, b) <==> bit(x, b) || bit(y, b)),
{
    assert forall|b: u64| b < 64 implies (#[trigger] bit(x | y, b) <==> bit(x, b) || bit(y, b)) by {
        assert(((x | y) >> b) & 1u64 == 1u64 <==> ((x >> b) & 1u64 == 1u64 || (y >> b) & 1u64 == 1u64))
            by (bit_vector)
            requires
                b < 64,
        ;
    }
}

proof fn lemma_bit_andnot(x: u64, y: u64)
    ensures
        forall|b: u64| b < 64 ==> (#[trigger] bit(x & !y, b) <==> bit(x, b) && !bit(y, b)),
{
    assert forall|b: u64| b < 64 implies (#[trigger] bit(x & !y, b) <==> bit(x, b) && !bit(y, b)) by {
        assert(((x & !y) >> b) & 1u64 == 1u64 <==> ((x >> b) & 1u64 == 1u64 && !((y >> b) & 1u64 == 1u64)))
            by (bit_vector)
            requires
                b < 64,
        ;
    }
}

proof fn lemma_bit_zero()
    ensures
        forall|b: u64| b < 64 ==> !#[trigger] bit(0u64, b),
{
    assert forall|b: u64| b < 64 implies !#[trigger] bit(0u64, b) by {
        assert(!((0u64 >> b) & 1u64 == 1u64)) by (bit_vector);
    }
}

proof fn lemma_bit_single(t: u64)
    requires
        t < 64,
    ensures
        forall|b: u64| b < 64 ==> (#[trigger] bit(1u64 << t, b) <==> b == t),
{
    assert forall|b: u64| b < 64 implies (#[trigger] bit(1u64 << t, b) <==> b == t) by {
        assert(((1u64 << t) >> b) & 1u64 == 1u64 <==> b == t) by (bit_vector)
            requires
                b < 64,
                t < 64,
        ;
    }
}

/// Sum of the room left above each word; it falls whenever a word gains a bit.
pub open spec fn slack(s: Seq<u64>) -> int
    decreases s.len(),
{
    if s.len() == 0 {
        0
    } else {
        slack(s.drop_last()) + (u64::MAX - s.last())
    }
}

proof fn lemma_slack_nonneg(s: Seq<u64>)
    ensures
        slack(s) >= 0,
    decreases s.len(),
{
    if s.len() > 0 {
        lemma_slack_nonneg(s.drop_last());
    }
}

proof fn lemma_slack_mono(s: Seq<u64>, t: Seq<u64>)
    requires
        s.len() == t.len(),
        forall|i: int| 0 <= i < s.len() ==> #[trigger] s[i] <= #[trigger] t[i],
    ensures
        slack(t) <= slack(s),
        (exists|i: int| 0 <= i < s.len() && s[i] < t[i]) ==> slack(t) < slack(s),
    decreases s.len(),
{
    if s.len() > 0 {
        let k = s.len() - 1;
        lemma_slack_mono(s.drop_last(), t.drop_last());
        assert forall|i: int| 0 <= i < k implies #[trigger] s.drop_last()[i] <= #[trigger] t.drop_last()[i] by {
            assert(s[i] <= t[i]);
        }
        if exists|i: int| 0 <= i < s.len() && s[i] < t[i] {
            let i = choose|i: int| 0 <= i < s.len() && s[i] < t[i];
            if i < k {
                assert(s.drop_last()[i] < t.drop_last()[i]);
            }
        }
    }
}

/// One synchronous BFS level: the bits of `frontier` pushed one edge forward,
/// keeping only those that `reach` lacks. Also reports whether any bit was
/// new.
fn bp_step(dag: &CsrGraph, frontier: &Vec<u64>, reach: &Vec<u64>) -> (res: (Vec<u64>, bool))
    requires
        dag.wf(),
        frontier@.len() == dag.spec_n(),
        reach@.len() == dag.spec_n(),
    ensures
        res.0@.len() == dag.spec_n(),
        forall|w: int| 0 <= w < dag.spec_n() ==> #[trigger] res.0@[w] & reach@[w] == 0,
        forall|w: int, b: u64| 0 <= w < dag.spec_n() && b < 64 && #[trigger] bit(res.0@[w], b) ==>
            exists|u: int| 0 <= u < dag.spec_n() && #[trigger] dag.edge(u, w) && bit(frontier@[u], b),
        forall|u: int, w: int, b: u64| 0 <= u < dag.spec_n() && b < 64 && #[trigger] dag.edge(u, w)
            && #[trigger] bit(frontier@[u], b) ==> bit(reach@[w], b) || bit(res.0@[w], b),
        !res.1 ==> forall|w: int| 0 <= w < dag.spec_n() ==> #[trigger] res.0@[w] == 0,
        res.1 ==> exists|w: int| 0 <= w < dag.spec_n() && #[trigger] res.0@[w] != 0,
{
    let n = dag.node_count() as usize;
    let mut next: Vec<u64> = vec![0u64; n];
    proof {
        lemma_bit_zero();
        assert forall|w: int| 0 <= w < n implies #[trigger] next@[w] & reach@[w] == 0 by {
            let r = reach@[w];
            assert(next@[w] == 0);
            assert(0u64 & r == 0) by (bit_vector);
        }
    }
    let mut any = false;
    let mut u: usize = 0;
    while u < n
        invariant
            dag.wf(),
            n == dag.spec_n(),
            frontier@.len() == n,
            reach@.len() == n,
            next@.len() == n,
            u <= n,
            forall|w: int| 0 <= w < n ==> #[trigger] next@[w] & reach@[w] == 0,
            forall|w: int, b: u64| 0 <= w < n && b < 64 && #[trigger] bit(next@[w], b) ==>
                exists|x: int| 0 <= x < n && #[trigger] dag.edge(x, w) && bit(frontier@[x], b),
            forall|x: int, w: int, b: u64| 0 <= x < u && b < 64 && #[trigger] dag.edge(x, w)
                && #[trigger] bit(frontier@[x], b) ==> bit(reach@[w], b) || bit(next@[w], b),
            !any ==> forall|w: int| 0 <= w < n ==> #[trigger] next@[w] == 0,
            any ==> exists|w: int| 0 <= w < n && #[trigger] next@[w] != 0,
        decreases n - u,
    {
        let f = frontier[u];
        if f == 0 {
            proof {
                lemma_bit_zero();
            }
            u = u + 1;
            continue;
        }
        let out = dag.out(u as u32);
        proof {
            assert(dag.offsets@[u as int] <= dag.offsets@[u as int + 1] <= dag.offsets@[n as int]);
        }
        let mut i: usize = 0;
        while i < out.len()
            invariant
                dag.wf(),
                n == dag.spec_n(),
                u < n,
                f == frontier@[u as int],
                out@ == csr_list(dag.offsets@, dag.targets@, u as int),
                dag.offsets@[u as int] <= dag.offsets@[u as int + 1] <= dag.offsets@[n as int],
                i <= out@.len(),
                frontier@.len() == n,
                reach@.len() == n,
                next@.len() == n,
                forall|w: int| 0 <= w < n ==> #[trigger] next@[w] & reach@[w] == 0,
                forall|w: int, b: u64| 0 <= w < n && b < 64 && #[trigger] bit(next@[w], b) ==>
                    exists|x: int| 0 <= x < n && #[trigger] dag.edge(x, w) && bit(frontier@[x], b),
                forall|x: int, w: int, b: u64| 0 <= x < u && b < 64 && #[trigger] dag.edge(x, w)
                    && #[trigger] bit(frontier@[x], b) ==> bit(reach@[w], b) || bit(next@[w], b),
                forall|k: int, b: u64| 0 <= k < i && b < 64 && #[trigger] bit(f, b) ==>
                    bit(reach@[#[trigger] out@[k] as int], b) || bit(next@[out@[k] as int], b),
                !any ==> forall|w: int| 0 <= w < n ==> #[trigger] next@[w] == 0,
                any ==> exists|w: int| 0 <= w < n && #[trigger] next@[w] != 0,
            decreases out@.len() - i,
        {
            let w = out[i] as usize;
            proof {
                assert(out@[i as int] == dag.targets@[dag.offsets@[u as int] + i]);
                reveal(CsrGraph::edge);
                assert(dag.edge(u as int, w as int));
            }
            let r = reach[w];
            let nw = f & !r;
            if nw != 0 {
                let old_next = next[w];
                let merged = old_next | nw;
                let ghost before = next@;
                next.set(w, merged);
                any = true;
                proof {
                    lemma_bit_or(old_next, nw);
                    lemma_bit_andnot(f, r);
                    assert(merged & r == 0) by (bit_vector)
                        requires
                            old_next & r == 0,
                            nw == f & !r,
                            merged == old_next | nw,
                    ;
                    assert(merged != 0) by (bit_vector)
                        requires
                            nw != 0,
                            merged == old_next | nw,
                    ;
                    assert forall|v: int| 0 <= v < n implies #[trigger] next@[v] & reach@[v] == 0 by {
                        if v != w as int {
                            assert(next@[v] == before[v]);
                        }
                    }
                    assert forall|v: int, b: u64| 0 <= v < n && b < 64 && #[trigger] bit(next@[v], b) implies
                        exists|x: int| 0 <= x < n && #[trigger] dag.edge(x, v) && bit(frontier@[x], b) by {
                        if v == w as int {
                            if !bit(before[v], b) {
                                assert(bit(nw, b));
                                assert(dag.edge(u as int, v) && bit(frontier@[u as int], b));
                            }
                        } else {
                            assert(next@[v] == before[v]);
                        }
                    }
                    assert forall|x: int, v: int, b: u64| 0 <= x < u && b < 64 && #[trigger] dag.edge(x, v)
                        && #[trigger] bit(frontier@[x], b) implies bit(reach@[v], b) || bit(next@[v], b) by {
                        if v == w as int {
                            assert(bit(reach@[v], b) || bit(before[v], b));
                        } else {
                            assert(next@[v] == before[v]);
                        }
                    }
                    assert forall|k: int, b: u64| 0 <= k < i + 1 && b < 64 && #[trigger] bit(f, b) implies
                        bit(reach@[#[trigger] out@[k] as int], b) || bit(next@[out@[k] as int], b) by {
                        let v = out@[k] as int;
                        if k < i {
                            if v == w as int {
                                assert(bit(reach@[v], b) || bit(before[v], b));
                            } else {
                                assert(next@[v] == before[v]);
                            }
                        } else {
                            if !bit(r, b) {
                                assert(bit(nw, b));
                            }
                        }
                    }
                    assert(next@[w as int] != 0);
                }
            } else {
                proof {
                    lemma_bit_andnot(f, r);
                    lemma_bit_zero();
                    assert forall|k: int, b: u64| 0 <= k < i + 1 && b < 64 && #[trigger] bit(f, b) implies
                        bit(reach@[#[trigger] out@[k] as int], b) || bit(next@[out@[k] as int], b) by {
                        if k == i {
                            assert(!bit(nw, b));
                        }
                    }
                }
            }
            i = i + 1;
        }
        proof {
            reveal(CsrGraph::edge);
            assert forall|x: int, w: int, b: u64| 0 <= x < u + 1 && b < 64 && #[trigger] dag.edge(x, w)
                && #[trigger] bit(frontier@[x], b) implies bit(reach@[w], b) || bit(next@[w], b) by {
                if x == u {
                    let q = choose|q: int| dag.offsets@[x] <= q < dag.offsets@[x + 1] && #[trigger] dag.targets@[q] == w;
                    let k = q - dag.offsets@[x];
                    assert(out@[k] == dag.targets@[q]);
                }
            }
        }
        u = u + 1;
    }
    (next, any)
}

/// Bit-parallel breadth-first search from up to 64 sources per traversal.
///
/// Sources are taken in consecutive groups of 64; source `j` owns bit
/// `j % 64`. Bit `b` of `res[w]` is set exactly when some source in lane `b`
/// reaches `w` (sources outside the graph are ignored), so with at most 64
/// sources bit `i` answers "does `sources[i]` reach `w`".
pub fn bit_parallel_bfs(dag: &CsrGraph, sources: &[u32]) -> (res: Vec<u64>)
    requires
        dag.wf(),
    ensures
        res@.len() == dag.spec_n(),
        forall|w: int, b: u64| 0 <= w < dag.spec_n() && b < 64 ==>
            (#[trigger] bit(res@[w], b) <==> lane_reaches(*dag, sources@, sources@.len() as int, b, w)),
{
    let n = dag.node_count() as usize;
    let mut reach: Vec<u64> = vec![0u64; n];
    proof {
        lemma_bit_zero();
        assert forall|w: int| 0 <= w < n implies #[trigger] reach@[w] == 0 by {}
    }
    if sources.len() == 0 {
        return reach;
    }
    let len = sources.len();
    let mut lo: usize = 0;
    while lo < len
        invariant
            dag.wf(),
            n == dag.spec_n(),
            len == sources@.len(),
            reach@.len() == n,
            lo <= len,
            lo % 64 == 0 || lo == len,
            forall|w: int, b: u64| 0 <= w < n && b < 64 && #[trigger] bit(reach@[w], b) ==>
                lane_reaches(*dag, sources@, lo as int, b, w),
            forall|u: int, w: int, b: u64| 0 <= u < n && b < 64 && #[trigger] dag.edge(u, w)
                && #[trigger] bit(reach@[u], b) ==> bit(reach@[w], b),
            forall|j: int| 0 <= j < lo && #[trigger] sources@[j] < n ==> bit(reach@[sources@[j] as int], (j % 64) as u64),
        decreases len - lo,
    {
        let hi: usize = if len - lo > 64 { lo + 64 } else { len };
        let mut frontier: Vec<u64> = vec![0u64; n];
        let ghost reach0 = reach@;
        proof {
            lemma_bit_zero();
            assert forall|w: int| 0 <= w < n implies #[trigger] frontier@[w] == 0 by {}
        }
        let mut i: usize = lo;
        while i < hi
            invariant
                dag.wf(),
                n == dag.spec_n(),
                len == sources@.len(),
                reach@.len() == n,
                frontier@.len() == n,
                reach0.len() == n,
                lo <= i <= hi <= len,
                hi - lo <= 64,
                lo % 64 == 0,
                forall|w: int, b: u64| 0 <= w < n && b < 64 && #[trigger] bit(reach@[w], b) ==>
                    lane_reaches(*dag, sources@, i as int, b, w),
                forall|w: int, b: u64| 0 <= w < n && b < 64 && #[trigger] bit(frontier@[w], b) ==> bit(reach@[w], b),
                forall|w: int, b: u64| 0 <= w < n && b < 64 && #[trigger] bit(reach0[w], b) ==> bit(reach@[w], b),
                forall|w: int, b: u64| 0 <= w < n && b < 64 && #[trigger] bit(reach@[w], b) ==>
                    bit(reach0[w], b) || bit(frontier@[w], b),
                forall|u: int, w: int, b: u64| 0 <= u < n && b < 64 && #[trigger] dag.edge(u, w)
                    && #[trigger] bit(reach0[u], b) ==> bit(reach0[w], b),
                forall|j: int| 0 <= j < i && #[trigger] sources@[j] < n ==> bit(reach@[sources@[j] as int], (j % 64) as u64),
            decreases hi - i,
        {
            let s = sources[i];
            if (s as usize) < n {
                let t: u64 = (i - lo) as u64;
                let one: u64 = 1u64 << t;
                let ghost rb = reach@;
                let ghost fb = frontier@;
                let fs = frontier[s as usize] | one;
                frontier.set(s as usize, fs);
                let rs = reach[s as usize] | one;
                reach.set(s as usize, rs);
                proof {
                    assert(i % 64 == t) by (nonlinear_arith)
                        requires
                            lo % 64 == 0,
                            i == lo + t,
                            t < 64,
                    ;
                    lemma_bit_single(t);
                    lemma_bit_or(fb[s as int], one);
                    lemma_bit_or(rb[s as int], one);
                    lemma_reaches_refl(*dag, s as int);
                    assert forall|w: int, b: u64| 0 <= w < n && b < 64 && #[trigger] bit(reach@[w], b) implies
                        lane_reaches(*dag, sources@, i + 1, b, w) by {
                        if w == s as int && b == t && !bit(rb[w], b) {
                            assert(sources@[i as int] == s);
                            assert(reaches(*dag, sources@[i as int] as int, w));
                        } else {
                            assert(bit(rb[w], b));
                            let j = choose|j: int| 0 <= j < i && j % 64 == b && sources@[j] < dag.spec_n()
                                && #[trigger] reaches(*dag, sources@[j] as int, w);
                        }
                    }
                    assert forall|j: int| 0 <= j < i + 1 && #[trigger] sources@[j] < n implies
                        bit(reach@[sources@[j] as int], (j % 64) as u64) by {
                        if j < i {
                            assert(bit(rb[sources@[j] as int], (j % 64) as u64));
                        }
                    }
                }
            } else {
                proof {
                    assert forall|w: int, b: u64| 0 <= w < n && b < 64 && #[trigger] bit(reach@[w], b) implies
                        lane_reaches(*dag, sources@, i + 1, b, w) by {
                        let j = choose|j: int| 0 <= j < i && j % 64 == b && sources@[j] < dag.spec_n()
                            && #[trigger] reaches(*dag, sources@[j] as int, w);
                    }
                }
            }
            i = i + 1;
        }
        proof {
            assert forall|u: int, w: int, b: u64| 0 <= u < n && b < 64 && #[trigger] dag.edge(u, w)
                && #[trigger] bit(reach@[u], b) implies bit(reach@[w], b) || bit(frontier@[u], b) by {
                if bit(reach0[u], b) {
                    assert(bit(reach0[w], b));
                    reveal(CsrGraph::edge);
                    let q = choose|q: int| dag.offsets@[u] <= q < dag.offsets@[u + 1] && #[trigger] dag.targets@[q] == w;
                    assert(dag.offsets@[u + 1] <= dag.offsets@[n as int]);
                }
            }
        }
        loop
            invariant
                dag.wf(),
                n == dag.spec_n(),
                len == sources@.len(),
                reach@.len() == n,
                frontier@.len() == n,
                hi <= len,
                forall|w: int, b: u64| 0 <= w < n && b < 64 && #[trigger] bit(reach@[w], b) ==>
                    lane_reaches(*dag, sources@, hi as int, b, w),
                forall|w: int, b: u64| 0 <= w < n && b < 64 && #[trigger] bit(frontier@[w], b) ==> bit(reach@[w], b),
                forall|u: int, w: int, b: u64| 0 <= u < n && b < 64 && #[trigger] dag.edge(u, w)
                    && #[trigger] bit(reach@[u], b) ==> bit(reach@[w], b) || bit(frontier@[u], b),
                forall|j: int| 0 <= j < hi && #[trigger] sources@[j] < n ==> bit(reach@[sources@[j] as int], (j % 64) as u64),
            ensures
                reach@.len() == n,
                forall|w: int, b: u64| 0 <= w < n && b < 64 && #[trigger] bit(reach@[w], b) ==>
                    lane_reaches(*dag, sources@, hi as int, b, w),
                forall|u: int, w: int, b: u64| 0 <= u < n && b < 64 && #[trigger] dag.edge(u, w)
                    && #[trigger] bit(reach@[u], b) ==> bit(reach@[w], b),
                forall|j: int| 0 <= j < hi && #[trigger] sources@[j] < n ==> bit(reach@[sources@[j] as int], (j % 64) as u64),
            decreases slack(reach@),
        {
            let (next, any) = bp_step(dag, &frontier, &reach);
            if !any {
                proof {
                    lemma_bit_zero();
                    assert forall|u: int, w: int, b: u64| 0 <= u < n && b < 64 && #[trigger] dag.edge(u, w)
                        && #[trigger] bit(reach@[u], b) implies bit(reach@[w], b) by {
                        if bit(frontier@[u], b) {
                            reveal(CsrGraph::edge);
                            let q = choose|q: int| dag.offsets@[u] <= q < dag.offsets@[u + 1] && #[trigger] dag.targets@[q] == w;
                            assert(dag.offsets@[u + 1] <= dag.offsets@[n as int]);
                            assert(next@[w] == 0);
                            assert(!bit(next@[w], b));
                        }
                    }
                }
                break;
            }
            let ghost rb = reach@;
            let mut w: usize = 0;
            while w < n
                invariant
                    n == dag.spec_n(),
                    reach@.len() == n,
                    next@.len() == n,
                    rb.len() == n,
                    w <= n,
                    forall|v: int| w <= v < n ==> #[trigger] reach@[v] == rb[v],
                    forall|v: int| 0 <= v < w ==> #[trigger] reach@[v] == (rb[v] | next@[v]),
                decreases n - w,
            {
                let x = reach[w] | next[w];
                reach.set(w, x);
                w = w + 1;
            }
            proof {
                assert forall|v: int| 0 <= v < n implies #[trigger] rb[v] <= reach@[v] by {
                    let a = rb[v];
                    let c = next@[v];
                    assert(a <= (a | c)) by (bit_vector);
                }
                let v = choose|v: int| 0 <= v < n && #[trigger] next@[v] != 0;
                let a = rb[v];
                let c = next@[v];
                assert(a < (a | c)) by (bit_vector)
                    requires
                        c != 0,
                        c & a == 0,
                ;
                assert(reach@[v] == (a | c));
                assert(rb[v] < reach@[v]);
                lemma_slack_mono(rb, reach@);
                lemma_slack_nonneg(reach@);
                assert forall|x: int, b: u64| 0 <= x < n && b < 64 implies
                    (#[trigger] bit(reach@[x], b) <==> bit(rb[x], b) || bit(next@[x], b)) by {
                    lemma_bit_or(rb[x], next@[x]);
                }
                assert forall|x: int, b: u64| 0 <= x < n && b < 64 && #[trigger] bit(reach@[x], b) implies
                    lane_reaches(*dag, sources@, hi as int, b, x) by {
                    if !bit(rb[x], b) {
                        assert(bit(next@[x], b));
                        let u = choose|u: int| 0 <= u < n && #[trigger] dag.edge(u, x) && bit(frontier@[u], b);
                        assert(bit(rb[u], b));
                        assert(lane_reaches(*dag, sources@, hi as int, b, u));
                        let j = choose|j: int| 0 <= j < hi && j % 64 == b && sources@[j] < dag.spec_n()
                            && #[trigger] reaches(*dag, sources@[j] as int, u);
                        lemma_reaches_step(*dag, sources@[j] as int, u, x);
                    }
                }
                assert forall|u: int, x: int, b: u64| 0 <= u < n && b < 64 && #[trigger] dag.edge(u, x)
                    && #[trigger] bit(reach@[u], b) implies bit(reach@[x], b) || bit(next@[u], b) by {
                    if bit(rb[u], b) {
                        if bit(frontier@[u], b) {
                            assert(bit(rb[x], b) || bit(next@[x], b));
                        }
                        reveal(CsrGraph::edge);
                        assert(0 <= x < n) by {
                            let q = choose|q: int| dag.offsets@[u] <= q < dag.offsets@[u + 1] && #[trigger] dag.targets@[q] == x;
                            assert(dag.offsets@[u + 1] <= dag.offsets@[n as int]);
                        }
                    }
                }
                assert forall|j: int| 0 <= j < hi && #[trigger] sources@[j] < n implies
                    bit(reach@[sources@[j] as int], (j % 64) as u64) by {
                    assert(bit(rb[sources@[j] as int], (j % 64) as u64));
                }
            }
            frontier = next;
        }
        lo = hi;
    }
    proof {
        assert forall|w: int, b: u64| 0 <= w < n && b < 64 implies
            (#[trigger] bit(reach@[w], b) <==> lane_reaches(*dag, sources@, len as int, b, w)) by {
            if lane_reaches(*dag, sources@, len as int, b, w) {
                let j = choose|j: int| 0 <= j < len && j % 64 == b && sources@[j] < dag.spec_n()
                    && #[trigger] reaches(*dag, sources@[j] as int, w);
                let bits = Seq::new(n as nat, |x: int| bit(reach@[x], b));
                assert(bit(reach@[sources@[j] as int], (j % 64) as u64));
                assert(crate::index::graph::closed_under_edges(*dag, bits)) by {
                    assert forall|u: int, v: int| 0 <= u < bits.len() && bits[u] && #[trigger] dag.edge(u, v) implies
                        0 <= v < bits.len() && bits[v] by {
                        assert(bit(reach@[u], b));
                        reveal(CsrGraph::edge);
                        let q = choose|q: int| dag.offsets@[u] <= q < dag.offsets@[u + 1] && #[trigger] dag.targets@[q] == v;
                        assert(dag.offsets@[u + 1] <= dag.offsets@[n as int]);
                    }
                }
                crate::index::graph::lemma_closed_holds_reached(*dag, bits, sources@[j] as int, w);
            }
        }
    }
    reach
}

} // verus!
