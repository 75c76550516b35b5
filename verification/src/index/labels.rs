//! 2-hop reachability labels built by pruned landmark labelling.
//!
//! `l_out[u]` holds landmarks that `u` reaches, `l_in[v]` landmarks that
//! reach `v`; `u` reaches `v` exactly when the two labels meet. Landmarks are
//! processed one at a time; a traversal from landmark `v` stops at nodes whose
//! labels already show the connection. A label that would grow past the cap
//! marks its node incomplete, and queries touching such a node fall back to
//! breadth-first search, so a query never answers wrong.

use vstd::prelude::*;
use crate::index::graph::{CsrGraph, csr_list, reaches, is_path, count_unset, lemma_count_unset_set, sort_edges,
    lemma_reaches_refl, lemma_reaches_step, lemma_reaches_trans};
use crate::index::bitset::{bits_of, bitset_with_capacity, bitset_contains, bitset_insert, bitset_set, bitset_fill};
use crate::index::reach::{sorted_u32, meet, intersects};
use fixedbitset::FixedBitSet;

verus! {

// ---------------------------------------------------------------------------
// Labels as sorted sequences.

/// Strictly increasing.
pub open spec fn strict_u32(s: Seq<u32>) -> bool {
    forall|i: int, j: int| 0 <= i < j < s.len() ==> #[trigger] s[i] < #[trigger] s[j]
}

/// A label: strictly increasing node ids below `n`.
pub open spec fn label_ok(s: Seq<u32>, n: nat) -> bool {
    &&& strict_u32(s)
    &&& forall|i: int| 0 <= i < s.len() ==> #[trigger] s[i] < n
}

proof fn lemma_strict_sorted(s: Seq<u32>)
    requires
        strict_u32(s),
    ensures
        sorted_u32(s),
{
}

/// Add `x` to a strictly increasing label (nothing changes if it is there),
/// at the place a binary search finds for it.
fn insert_sorted(row: &mut Vec<u32>, x: u32)
    requires
        strict_u32(old(row)@),
    ensures
        strict_u32(final(row)@),
        final(row)@.len() >= old(row)@.len(),
        forall|y: u32| #[trigger] final(row)@.contains(y) <==> (old(row)@.contains(y) || y == x),
{
    let mut lo: usize = 0;
    let mut hi: usize = row.len();
    while lo < hi
        invariant
            lo <= hi <= row@.len(),
            row@ == old(row)@,
            strict_u32(row@),
            forall|i: int| 0 <= i < lo ==> #[trigger] row@[i] < x,
            forall|i: int| hi <= i < row@.len() ==> #[trigger] row@[i] >= x,
        decreases hi - lo,
    {
        let mid = lo + (hi - lo) / 2;
        if row[mid] < x {
            lo = mid + 1;
        } else {
            hi = mid;
        }
    }
    if lo < row.len() && row[lo] == x {
        return;
    }
    let ghost r0 = row@;
    row.insert(lo, x);
    proof {
        assert(row@ == r0.insert(lo as int, x));
        assert forall|i: int, j: int| 0 <= i < j < row@.len() implies #[trigger] row@[i] < #[trigger] row@[j] by {
            if j < lo {
                assert(row@[i] == r0[i] && row@[j] == r0[j]);
            } else if j == lo {
                assert(row@[i] == r0[i]);
            } else if i < lo {
                assert(row@[i] == r0[i] && row@[j] == r0[j - 1]);
            } else if i == lo {
                assert(row@[j] == r0[j - 1]);
                assert(r0[lo as int] >= x && r0[lo as int] != x);
                if j - 1 > lo {
                    assert(r0[lo as int] < r0[j - 1]);
                }
            } else {
                assert(row@[i] == r0[i - 1] && row@[j] == r0[j - 1]);
            }
        }
        assert forall|y: u32| #[trigger] row@.contains(y) <==> (r0.contains(y) || y == x) by {
            if row@.contains(y) {
                let k = choose|k: int| 0 <= k < row@.len() && row@[k] == y;
                if k < lo {
                    assert(r0[k] == y);
                } else if k > lo {
                    assert(r0[k - 1] == y);
                }
            }
            if r0.contains(y) {
                let k = choose|k: int| 0 <= k < r0.len() && r0[k] == y;
                if k < lo {
                    assert(row@[k] == y);
                } else {
                    assert(row@[k + 1] == y);
                }
            }
            if y == x {
                assert(row@[lo as int] == x);
            }
        }
    }
}

// ---------------------------------------------------------------------------
// Walking in either direction.

/// One step in direction `fwd`: along an edge, or against one.
pub open spec fn dnext(g: CsrGraph, fwd: bool, x: int, y: int) -> bool {
    if fwd { g.edge(x, y) } else { g.edge(y, x) }
}

/// `y` is reached from `x` walking in direction `fwd`.
pub open spec fn dreach(g: CsrGraph, fwd: bool, x: int, y: int) -> bool {
    if fwd { reaches(g, x, y) } else { reaches(g, y, x) }
}

proof fn lemma_dreach_refl(g: CsrGraph, fwd: bool, x: int)
    ensures
        dreach(g, fwd, x, x),
{
    lemma_reaches_refl(g, x);
}

proof fn lemma_dreach_step(g: CsrGraph, fwd: bool, x: int, u: int, w: int)
    requires
        dreach(g, fwd, x, u),
        dnext(g, fwd, u, w),
    ensures
        dreach(g, fwd, x, w),
{
    if fwd {
        lemma_reaches_step(g, x, u, w);
    } else {
        lemma_reaches_refl(g, w);
        lemma_reaches_step(g, w, w, u);
        lemma_reaches_trans(g, w, u, x);
    }
}

proof fn lemma_dreach_trans(g: CsrGraph, fwd: bool, x: int, u: int, w: int)
    requires
        dreach(g, fwd, x, u),
        dreach(g, fwd, u, w),
    ensures
        dreach(g, fwd, x, w),
{
    if fwd {
        lemma_reaches_trans(g, x, u, w);
    } else {
        lemma_reaches_trans(g, w, u, x);
    }
}

/// The neighbour list that `out` (forward) or `rev` (backward) returns holds
/// exactly the one-step successors in that direction.
proof fn lemma_dnext_list(g: CsrGraph, fwd: bool, u: int, nbrs: Seq<u32>)
    requires
        g.wf(),
        0 <= u < g.spec_n(),
        nbrs == (if fwd { csr_list(g.offsets@, g.targets@, u) } else { csr_list(g.rev_offsets@, g.rev_targets@, u) }),
    ensures
        forall|k: int| 0 <= k < nbrs.len() ==> #[trigger] nbrs[k] < g.spec_n() && dnext(g, fwd, u, nbrs[k] as int),
        forall|y: int| #[trigger] dnext(g, fwd, u, y) ==> exists|k: int| 0 <= k < nbrs.len() && nbrs[k] == y,
{
    reveal(CsrGraph::edge);
    let n = g.spec_n() as int;
    if fwd {
        assert forall|k: int| 0 <= k < nbrs.len() implies #[trigger] nbrs[k] < g.spec_n() && dnext(g, fwd, u, nbrs[k] as int) by {
            assert(g.offsets@[u] <= g.offsets@[u + 1] <= g.offsets@[n]);
            assert(nbrs[k] == g.targets@[g.offsets@[u] + k]);
        }
        assert forall|y: int| #[trigger] dnext(g, fwd, u, y) implies exists|k: int| 0 <= k < nbrs.len() && nbrs[k] == y by {
            let q = choose|q: int| g.offsets@[u] <= q < g.offsets@[u + 1] && #[trigger] g.targets@[q] == y;
            assert(nbrs[q - g.offsets@[u]] == y);
        }
    } else {
        assert forall|k: int| 0 <= k < nbrs.len() implies #[trigger] nbrs[k] < g.spec_n() && dnext(g, fwd, u, nbrs[k] as int) by {
            assert(g.rev_offsets@[u] <= g.rev_offsets@[u + 1] <= g.rev_offsets@[n]);
            let q = g.rev_offsets@[u] + k;
            assert(nbrs[k] == g.rev_targets@[q]);
            assert(g.rev_targets@[q] < n);
            assert(crate::index::graph::csr_has(g.rev_offsets@, g.rev_targets@, u, nbrs[k] as int));
        }
        assert forall|y: int| #[trigger] dnext(g, fwd, u, y) implies exists|k: int| 0 <= k < nbrs.len() && nbrs[k] == y by {
            assert(0 <= y < n);
            assert(crate::index::graph::csr_has(g.offsets@, g.targets@, y, u));
            let q = choose|q: int| g.rev_offsets@[u] <= q < g.rev_offsets@[u + 1] && #[trigger] g.rev_targets@[q] == y;
            assert(nbrs[q - g.rev_offsets@[u]] == y);
        }
    }
}

// ---------------------------------------------------------------------------
// What the labels hold.

/// Every entry of the label of `w` is `w` itself or one of `proc`, and
/// reaches `w` walking in direction `fwd`.
pub open spec fn row_content(g: CsrGraph, fwd: bool, proc: Set<int>, row: Seq<u32>, w: int) -> bool {
    forall|i: int| 0 <= i < row.len() ==> ((#[trigger] row[i]) as int == w || proc.contains(row[i] as int))
        && dreach(g, fwd, row[i] as int, w)
}

pub open spec fn rows_ok(rows: Seq<Vec<u32>>, n: nat) -> bool {
    forall|w: int| 0 <= w < rows.len() ==> label_ok(#[trigger] rows[w]@, n)
}

pub open spec fn rows_content(g: CsrGraph, fwd: bool, proc: Set<int>, rows: Seq<Vec<u32>>) -> bool {
    forall|w: int| 0 <= w < rows.len() ==> row_content(g, fwd, proc, #[trigger] rows[w]@, w)
}

/// Every node is in its own label.
pub open spec fn rows_self(rows: Seq<Vec<u32>>) -> bool {
    forall|w: int| 0 <= w < rows.len() ==> (#[trigger] rows[w]@).contains(w as u32)
}

/// Labels only gain entries.
pub open spec fn rows_grow(a: Seq<Vec<u32>>, b: Seq<Vec<u32>>) -> bool {
    &&& a.len() == b.len()
    &&& forall|w: int, x: u32| 0 <= w < a.len() && #[trigger] a[w]@.contains(x) ==> b[w]@.contains(x)
}

/// Bits are only cleared.
pub open spec fn bits_shrink(a: Seq<bool>, b: Seq<bool>) -> bool {
    &&& a.len() == b.len()
    &&& forall|w: int| 0 <= w < a.len() && #[trigger] b[w] ==> a[w]
}

/// A landmark of `proc` lies between `x` and `y` walking in direction `fwd`.
pub open spec fn between(g: CsrGraph, fwd: bool, proc: Set<int>, x: int, y: int) -> bool {
    exists|l: int| proc.contains(l) && #[trigger] dreach(g, fwd, x, l) && dreach(g, fwd, l, y)
}

/// A node strictly between landmark `v` and a node `b` with no landmark of
/// `proc` between them is never pruned: its label does not meet `v`'s.
proof fn lemma_not_covered(g: CsrGraph, fwd: bool, proc: Set<int>, v: int, ov: Seq<u32>, x: int, tx: Seq<u32>, b: int)
    requires
        row_content(g, !fwd, proc, ov, v),
        row_content(g, fwd, proc, tx, x),
        dreach(g, fwd, v, x),
        dreach(g, fwd, x, b),
        !between(g, fwd, proc, v, b),
        x != v,
    ensures
        !meet(ov, tx),
{
    if meet(ov, tx) {
        let (i, j) = choose|i: int, j: int| 0 <= i < ov.len() && 0 <= j < tx.len() && #[trigger] ov[i] == #[trigger] tx[j];
        let l = ov[i] as int;
        assert(dreach(g, !fwd, l, v));
        assert(dreach(g, fwd, v, l));
        assert(dreach(g, fwd, l, x));
        if proc.contains(l) {
            lemma_dreach_trans(g, fwd, l, x, b);
            assert(between(g, fwd, proc, v, b));
        }
    }
}

proof fn lemma_path_split(g: CsrGraph, p: Seq<int>, i: int)
    requires
        is_path(g, p),
        0 <= i < p.len(),
    ensures
        reaches(g, p[0], p[i]),
        reaches(g, p[i], p.last()),
{
    let q1 = p.subrange(0, i + 1);
    assert forall|j: int| #![trigger q1[j]] 0 <= j < q1.len() - 1 implies g.edge(q1[j], q1[j + 1]) by {
        assert(q1[j] == p[j] && q1[j + 1] == p[j + 1]);
    }
    assert(is_path(g, q1));
    assert(q1[0] == p[0] && q1.last() == p[i]);
    let q2 = p.subrange(i, p.len() as int);
    assert forall|j: int| #![trigger q2[j]] 0 <= j < q2.len() - 1 implies g.edge(q2[j], q2[j + 1]) by {
        assert(q2[j] == p[i + j] && q2[j + 1] == p[i + j + 1]);
    }
    assert(is_path(g, q2));
    assert(q2[0] == p[i] && q2.last() == p.last());
}

/// After a traversal: a visited node that is the landmark or was not pruned
/// has all its successors visited.
pub open spec fn trav_closed(g: CsrGraph, fwd: bool, v: int, ov: Seq<u32>, t0: Seq<Vec<u32>>, vis: Seq<bool>) -> bool {
    forall|x: int, y: int| 0 <= x < vis.len() && vis[x] && (x == v || !meet(ov, t0[x]@)) && #[trigger] dnext(g, fwd, x, y)
        ==> 0 <= y < vis.len() && vis[y]
}

proof fn lemma_walk_fwd(g: CsrGraph, proc: Set<int>, v: int, ov: Seq<u32>, t0: Seq<Vec<u32>>, vis: Seq<bool>,
    p: Seq<int>, i: int)
    requires
        trav_closed(g, true, v, ov, t0, vis),
        vis.len() == t0.len(),
        0 <= v < vis.len(),
        vis[v],
        row_content(g, false, proc, ov, v),
        rows_content(g, true, proc, t0),
        is_path(g, p),
        p[0] == v,
        !between(g, true, proc, v, p.last()),
        0 <= i < p.len(),
    ensures
        0 <= p[i] < vis.len(),
        vis[p[i]],
        p[i] == v || !meet(ov, t0[p[i]]@),
    decreases i,
{
    if i > 0 {
        lemma_walk_fwd(g, proc, v, ov, t0, vis, p, i - 1);
        assert(g.edge(p[i - 1], p[i]));
        assert(dnext(g, true, p[i - 1], p[i]));
        if p[i] != v {
            lemma_path_split(g, p, i);
            lemma_not_covered(g, true, proc, v, ov, p[i], t0[p[i]]@, p.last());
        }
    }
}

proof fn lemma_walk_bwd(g: CsrGraph, proc: Set<int>, v: int, ov: Seq<u32>, t0: Seq<Vec<u32>>, vis: Seq<bool>,
    p: Seq<int>, i: int)
    requires
        trav_closed(g, false, v, ov, t0, vis),
        vis.len() == t0.len(),
        0 <= v < vis.len(),
        vis[v],
        row_content(g, true, proc, ov, v),
        rows_content(g, false, proc, t0),
        is_path(g, p),
        p.last() == v,
        !between(g, false, proc, v, p[0]),
        0 <= i < p.len(),
    ensures
        0 <= p[i] < vis.len(),
        vis[p[i]],
        p[i] == v || !meet(ov, t0[p[i]]@),
    decreases p.len() - i,
{
    if i < p.len() - 1 {
        lemma_walk_bwd(g, proc, v, ov, t0, vis, p, i + 1);
        assert(g.edge(p[i], p[i + 1]));
        assert(dnext(g, false, p[i + 1], p[i]));
        if p[i] != v {
            lemma_path_split(g, p, i);
            lemma_not_covered(g, false, proc, v, ov, p[i], t0[p[i]]@, p[0]);
        }
    }
}

/// Every node reached from the landmark with no landmark of `proc` on the
/// way is visited and was not pruned.
proof fn lemma_walk(g: CsrGraph, fwd: bool, proc: Set<int>, v: int, ov: Seq<u32>, t0: Seq<Vec<u32>>, vis: Seq<bool>, b: int)
    requires
        trav_closed(g, fwd, v, ov, t0, vis),
        vis.len() == t0.len(),
        0 <= v < vis.len(),
        vis[v],
        row_content(g, !fwd, proc, ov, v),
        rows_content(g, fwd, proc, t0),
        dreach(g, fwd, v, b),
        !between(g, fwd, proc, v, b),
    ensures
        0 <= b < vis.len(),
        vis[b],
        b == v || !meet(ov, t0[b]@),
{
    if fwd {
        let p = choose|p: Seq<int>| #[trigger] is_path(g, p) && p[0] == v && p.last() == b;
        lemma_walk_fwd(g, proc, v, ov, t0, vis, p, p.len() - 1);
    } else {
        let p = choose|p: Seq<int>| #[trigger] is_path(g, p) && p[0] == b && p.last() == v;
        lemma_walk_bwd(g, proc, v, ov, t0, vis, p, 0);
    }
}

// ---------------------------------------------------------------------------
// One landmark's traversal.

/// Pruned traversal from landmark `v`. Forward, it follows out-edges, adds
/// `v` to the `l_in` labels (`target`) and tests coverage against `l_out`
/// (`other`); backward, it follows in-edges, adds `v` to `l_out` and tests
/// against `l_in`. A node already covered is marked but not expanded; a node
/// whose label is at the cap is marked incomplete instead of growing, and is
/// still expanded.
#[verifier::rlimit(80)]
fn pruned_traverse(dag: &CsrGraph, v: u32, forward: bool, target: &mut Vec<Vec<u32>>, other: &Vec<Vec<u32>>,
    cap: u32, complete: &mut FixedBitSet, Ghost(proc): Ghost<Set<int>>)
    requires
        dag.wf(),
        v < dag.spec_n(),
        old(target)@.len() == dag.spec_n(),
        other@.len() == dag.spec_n(),
        bits_of(*old(complete)).len() == dag.spec_n(),
        rows_ok(old(target)@, dag.spec_n()),
        label_ok(other@[v as int]@, dag.spec_n()),
        rows_content(*dag, forward, proc, old(target)@),
        rows_self(old(target)@),
        row_content(*dag, !forward, proc, other@[v as int]@, v as int),
    ensures
        final(target)@.len() == dag.spec_n(),
        rows_ok(final(target)@, dag.spec_n()),
        rows_self(final(target)@),
        rows_grow(old(target)@, final(target)@),
        forall|x: int, y: u32| 0 <= x < dag.spec_n() && #[trigger] final(target)@[x]@.contains(y)
            ==> old(target)@[x]@.contains(y) || (y == v && dreach(*dag, forward, v as int, x)),
        final(target)@[v as int]@ == old(target)@[v as int]@,
        forall|x: int| 0 <= x < dag.spec_n() ==> #[trigger] final(target)@[x]@.len() >= old(target)@[x]@.len(),
        bits_shrink(bits_of(*old(complete)), bits_of(*final(complete))),
        forall|x: int| 0 <= x < dag.spec_n() && bits_of(*old(complete))[x] && !#[trigger] bits_of(*final(complete))[x]
            ==> final(target)@[x]@.len() >= cap,
        forall|b: int| 0 <= b < dag.spec_n() && #[trigger] dreach(*dag, forward, v as int, b)
            && !between(*dag, forward, proc, v as int, b)
            ==> final(target)@[b]@.contains(v) || !bits_of(*final(complete))[b],
{
    let ghost n = dag.spec_n();
    let ghost t0 = target@;
    let ghost c0 = bits_of(*complete);
    let ghost ov = other@[v as int]@;
    let mut visited = bitset_with_capacity(dag.node_count() as usize);
    bitset_insert(&mut visited, v as usize);
    let mut stack: Vec<u32> = Vec::new();
    stack.push(v);
    proof {
        lemma_dreach_refl(*dag, forward, v as int);
        assert(stack@[0] == v);
        assert forall|x: int, y: int| 0 <= x < n && bits_of(visited)[x] && (x == v || !meet(ov, t0[x]@))
            && !stack@.contains(x as u32) && #[trigger] dnext(*dag, forward, x, y) implies 0 <= y < n && bits_of(visited)[y] by {
            assert(x == v);
        }
    }
    loop
        invariant
            dag.wf(),
            n == dag.spec_n(),
            v < n,
            other@.len() == n,
            ov == other@[v as int]@,
            label_ok(ov, n),
            row_content(*dag, !forward, proc, ov, v as int),
            t0.len() == n,
            rows_ok(t0, n),
            rows_content(*dag, forward, proc, t0),
            rows_self(t0),
            target@.len() == n,
            rows_ok(target@, n),
            rows_grow(t0, target@),
            forall|x: int| 0 <= x < n && !bits_of(visited)[x] ==> #[trigger] target@[x]@ == t0[x]@,
            target@[v as int]@ == t0[v as int]@,
            forall|x: int, y: u32| 0 <= x < n && #[trigger] target@[x]@.contains(y)
                ==> t0[x]@.contains(y) || (y == v && bits_of(visited)[x]),
            c0.len() == n,
            bits_shrink(c0, bits_of(*complete)),
            forall|x: int| 0 <= x < n ==> #[trigger] target@[x]@.len() >= t0[x]@.len(),
            forall|x: int| 0 <= x < n && c0[x] && !#[trigger] bits_of(*complete)[x]
                ==> bits_of(visited)[x] && target@[x]@.len() >= cap,
            bits_of(visited).len() == n,
            bits_of(visited)[v as int],
            forall|x: int| 0 <= x < n && #[trigger] bits_of(visited)[x] ==> dreach(*dag, forward, v as int, x),
            forall|k: int| 0 <= k < stack@.len() ==> #[trigger] stack@[k] < n && bits_of(visited)[stack@[k] as int]
                && (stack@[k] == v || !meet(ov, t0[stack@[k] as int]@)),
            forall|x: int, y: int| 0 <= x < n && bits_of(visited)[x] && (x == v || !meet(ov, t0[x]@))
                && !stack@.contains(x as u32) && #[trigger] dnext(*dag, forward, x, y) ==> 0 <= y < n && bits_of(visited)[y],
            forall|x: int| 0 <= x < n && #[trigger] bits_of(visited)[x] && x != v && !meet(ov, t0[x]@)
                ==> target@[x]@.contains(v) || !bits_of(*complete)[x],
        ensures
            stack@.len() == 0,
        decreases 2 * count_unset(bits_of(visited)) + stack@.len(),
    {
        let ghost m0 = 2 * count_unset(bits_of(visited)) + stack@.len();
        let ghost stack_before = stack@;
        let popped = stack.pop();
        if popped.is_none() {
            break;
        }
        let u = popped.unwrap();
        proof {
            assert(stack_before =~= stack@.push(u));
            assert(stack_before[stack_before.len() - 1] == u);
            assert forall|k: int| 0 <= k < stack@.len() implies #[trigger] stack@[k] < n && bits_of(visited)[stack@[k] as int]
                && (stack@[k] == v || !meet(ov, t0[stack@[k] as int]@)) by {
                assert(stack@[k] == stack_before[k]);
            }
            assert forall|x: int, y: int| 0 <= x < n && bits_of(visited)[x] && (x == v || !meet(ov, t0[x]@))
                && !stack@.contains(x as u32) && x != u && #[trigger] dnext(*dag, forward, x, y)
                implies 0 <= y < n && bits_of(visited)[y] by {
                if stack_before.contains(x as u32) {
                    let k = choose|k: int| 0 <= k < stack_before.len() && stack_before[k] == x as u32;
                    if k < stack@.len() {
                        assert(stack@[k] == x as u32);
                    }
                }
            }
        }
        let nbrs = if forward { dag.out(u) } else { dag.rev(u) };
        proof {
            lemma_dnext_list(*dag, forward, u as int, nbrs@);
        }
        let mut i: usize = 0;
        while i < nbrs.len()
            invariant
                dag.wf(),
                n == dag.spec_n(),
                v < n,
                other@.len() == n,
                ov == other@[v as int]@,
                label_ok(ov, n),
                t0.len() == n,
                rows_ok(t0, n),
                target@.len() == n,
                rows_ok(target@, n),
                rows_grow(t0, target@),
                forall|x: int| 0 <= x < n && !bits_of(visited)[x] ==> #[trigger] target@[x]@ == t0[x]@,
                target@[v as int]@ == t0[v as int]@,
                forall|x: int, y: u32| 0 <= x < n && #[trigger] target@[x]@.contains(y)
                    ==> t0[x]@.contains(y) || (y == v && bits_of(visited)[x]),
                c0.len() == n,
                bits_shrink(c0, bits_of(*complete)),
                forall|x: int| 0 <= x < n ==> #[trigger] target@[x]@.len() >= t0[x]@.len(),
                forall|x: int| 0 <= x < n && c0[x] && !#[trigger] bits_of(*complete)[x]
                    ==> bits_of(visited)[x] && target@[x]@.len() >= cap,
                bits_of(visited).len() == n,
                bits_of(visited)[v as int],
                forall|x: int| 0 <= x < n && #[trigger] bits_of(visited)[x] ==> dreach(*dag, forward, v as int, x),
                forall|k: int| 0 <= k < stack@.len() ==> #[trigger] stack@[k] < n && bits_of(visited)[stack@[k] as int]
                    && (stack@[k] == v || !meet(ov, t0[stack@[k] as int]@)),
                forall|x: int, y: int| 0 <= x < n && bits_of(visited)[x] && (x == v || !meet(ov, t0[x]@))
                    && !stack@.contains(x as u32) && x != u && #[trigger] dnext(*dag, forward, x, y)
                    ==> 0 <= y < n && bits_of(visited)[y],
                forall|x: int| 0 <= x < n && #[trigger] bits_of(visited)[x] && x != v && !meet(ov, t0[x]@)
                    ==> target@[x]@.contains(v) || !bits_of(*complete)[x],
                u < n,
                bits_of(visited)[u as int],
                forall|k: int| 0 <= k < nbrs@.len() ==> #[trigger] nbrs@[k] < n && dnext(*dag, forward, u as int, nbrs@[k] as int),
                forall|y: int| #[trigger] dnext(*dag, forward, u as int, y) ==> exists|k: int| 0 <= k < nbrs@.len() && nbrs@[k] == y,
                i <= nbrs@.len(),
                forall|k: int| 0 <= k < i ==> bits_of(visited)[#[trigger] nbrs@[k] as int],
                2 * count_unset(bits_of(visited)) + stack@.len() < m0,
            decreases nbrs@.len() - i,
        {
            let w = nbrs[i];
            proof {
                assert(dnext(*dag, forward, u as int, w as int));
                lemma_dreach_step(*dag, forward, v as int, u as int, w as int);
            }
            if !bitset_contains(&visited, w as usize) {
                proof {
                    lemma_strict_sorted(ov);
                    lemma_strict_sorted(target@[w as int]@);
                }
                let covered = intersects(other[v as usize].as_slice(), target[w as usize].as_slice());
                let ghost vis0 = bits_of(visited);
                let ghost stack0 = stack@;
                let ghost tg0 = target@;
                let ghost cb0 = bits_of(*complete);
                bitset_insert(&mut visited, w as usize);
                proof {
                    lemma_count_unset_set(vis0, w as int);
                    assert(tg0[w as int]@ == t0[w as int]@);
                    assert(covered == meet(ov, t0[w as int]@));
                }
                if !covered {
                    if target[w as usize].len() >= cap as usize {
                        bitset_set(complete, w as usize, false);
                    } else {
                        insert_sorted(&mut target[w as usize], v);
                        proof {
                            assert(target@ == tg0.update(w as int, target@[w as int]));
                            let r = target@[w as int]@;
                            assert forall|k: int| 0 <= k < r.len() implies #[trigger] r[k] < n by {
                                assert(r.contains(r[k]));
                                if r[k] != v {
                                    let j = choose|j: int| 0 <= j < tg0[w as int]@.len() && tg0[w as int]@[j] == r[k];
                                }
                            }
                            assert(label_ok(r, n));
                        }
                    }
                    stack.push(w);
                    proof {
                        assert(stack@ == stack0.push(w));
                    }
                }
                proof {
                    assert(target@.len() == n);
                    assert forall|x: int| 0 <= x < n implies label_ok(#[trigger] target@[x]@, n) by {
                        if x != w {
                            assert(target@[x] == tg0[x]);
                        }
                    }
                    assert forall|x: int, y: u32| 0 <= x < n && #[trigger] t0[x]@.contains(y) implies target@[x]@.contains(y) by {
                        if x != w {
                            assert(target@[x] == tg0[x]);
                        }
                    }
                    assert forall|x: int| 0 <= x < n && !bits_of(visited)[x] implies #[trigger] target@[x]@ == t0[x]@ by {
                        assert(x != w);
                        assert(target@[x] == tg0[x]);
                        assert(!vis0[x]);
                    }
                    assert(w != v);
                    assert(target@[v as int] == tg0[v as int]);
                    assert forall|x: int, y: u32| 0 <= x < n && #[trigger] target@[x]@.contains(y)
                        implies t0[x]@.contains(y) || (y == v && bits_of(visited)[x]) by {
                        if x != w {
                            assert(target@[x] == tg0[x]);
                        }
                    }
                    assert forall|x: int| 0 <= x < n && #[trigger] bits_of(visited)[x] implies dreach(*dag, forward, v as int, x) by {
                        if x != w {
                            assert(vis0[x]);
                        }
                    }
                    assert forall|k: int| 0 <= k < stack@.len() implies #[trigger] stack@[k] < n && bits_of(visited)[stack@[k] as int]
                        && (stack@[k] == v || !meet(ov, t0[stack@[k] as int]@)) by {
                        if k < stack0.len() {
                            assert(stack@[k] == stack0[k]);
                        }
                    }
                    assert forall|x: int, y: int| 0 <= x < n && bits_of(visited)[x] && (x == v || !meet(ov, t0[x]@))
                        && !stack@.contains(x as u32) && x != u && #[trigger] dnext(*dag, forward, x, y)
                        implies 0 <= y < n && bits_of(visited)[y] by {
                        if x == w {
                            assert(!covered);
                            assert(stack@[stack@.len() - 1] == w);
                        } else {
                            assert(vis0[x]);
                            if stack0.contains(x as u32) {
                                let k = choose|k: int| 0 <= k < stack0.len() && stack0[k] == x as u32;
                                assert(stack@[k] == x as u32);
                            }
                        }
                    }
                    assert forall|x: int| 0 <= x < n implies #[trigger] target@[x]@.len() >= t0[x]@.len() by {
                        if x != w {
                            assert(target@[x] == tg0[x]);
                        }
                    }
                    assert forall|x: int| 0 <= x < n && c0[x] && !#[trigger] bits_of(*complete)[x]
                        implies bits_of(visited)[x] && target@[x]@.len() >= cap by {
                        if x != w {
                            assert(target@[x] == tg0[x]);
                        }
                    }
                    assert forall|x: int| 0 <= x < n && #[trigger] bits_of(visited)[x] && x != v && !meet(ov, t0[x]@)
                        implies target@[x]@.contains(v) || !bits_of(*complete)[x] by {
                        if x != w {
                            assert(vis0[x]);
                            assert(target@[x] == tg0[x]);
                        }
                    }
                }
            }
            i = i + 1;
        }
        proof {
            assert forall|y: int| #[trigger] dnext(*dag, forward, u as int, y) implies 0 <= y < n && bits_of(visited)[y] by {
                let k = choose|k: int| 0 <= k < nbrs@.len() && nbrs@[k] == y;
                assert(bits_of(visited)[nbrs@[k] as int]);
            }
        }
    }
    proof {
        let vis = bits_of(visited);
        assert(trav_closed(*dag, forward, v as int, ov, t0, vis)) by {
            assert forall|x: int, y: int| 0 <= x < vis.len() && vis[x] && (x == v || !meet(ov, t0[x]@))
                && #[trigger] dnext(*dag, forward, x, y) implies 0 <= y < vis.len() && vis[y] by {
                assert(!stack@.contains(x as u32));
            }
        }
        assert forall|b: int| 0 <= b < n && #[trigger] dreach(*dag, forward, v as int, b)
            && !between(*dag, forward, proc, v as int, b)
            implies target@[b]@.contains(v) || !bits_of(*complete)[b] by {
            lemma_walk(*dag, forward, proc, v as int, ov, t0, vis, b);
            if b == v {
                assert(t0[b]@.contains(b as u32));
            }
        }
    }
}

// ---------------------------------------------------------------------------
// Building the labels.

/// Every pair joined through a landmark of `proc` meets in the labels,
/// unless one of its ends is incomplete.
pub open spec fn coverage(g: CsrGraph, proc: Set<int>, lo: Seq<Vec<u32>>, li: Seq<Vec<u32>>, comp: Seq<bool>) -> bool {
    forall|a: int, b: int| 0 <= a < g.spec_n() && 0 <= b < g.spec_n() && #[trigger] between(g, true, proc, a, b)
        ==> meet(lo[a]@, li[b]@) || !comp[a] || !comp[b]
}

/// An incomplete node has a label at the cap.
pub open spec fn capped(cap: u32, lo: Seq<Vec<u32>>, li: Seq<Vec<u32>>, comp: Seq<bool>) -> bool {
    forall|w: int| 0 <= w < comp.len() && !#[trigger] comp[w] ==> lo[w]@.len() >= cap || li[w]@.len() >= cap
}

proof fn lemma_meet_grow(a0: Seq<u32>, b0: Seq<u32>, a1: Seq<u32>, b1: Seq<u32>)
    requires
        meet(a0, b0),
        forall|x: u32| #[trigger] a0.contains(x) ==> a1.contains(x),
        forall|x: u32| #[trigger] b0.contains(x) ==> b1.contains(x),
    ensures
        meet(a1, b1),
{
    let (i, j) = choose|i: int, j: int| 0 <= i < a0.len() && 0 <= j < b0.len() && #[trigger] a0[i] == #[trigger] b0[j];
    assert(a0.contains(a0[i]));
    assert(b0.contains(b0[j]));
    let i1 = choose|i1: int| 0 <= i1 < a1.len() && a1[i1] == a0[i];
    let j1 = choose|j1: int| 0 <= j1 < b1.len() && b1[j1] == b0[j];
    assert(a1[i1] == b1[j1]);
}

/// Processing landmark `v` (a forward then a backward traversal) extends the
/// coverage from `proc` to `proc` with `v`.
proof fn lemma_cover_step(g: CsrGraph, proc: Set<int>, v: int, lo0: Seq<Vec<u32>>, li0: Seq<Vec<u32>>, c0: Seq<bool>,
    li1: Seq<Vec<u32>>, c1: Seq<bool>, lo2: Seq<Vec<u32>>, c2: Seq<bool>)
    requires
        lo0.len() == g.spec_n(),
        li0.len() == g.spec_n(),
        c0.len() == g.spec_n(),
        coverage(g, proc, lo0, li0, c0),
        rows_grow(li0, li1),
        rows_grow(lo0, lo2),
        bits_shrink(c0, c1),
        bits_shrink(c1, c2),
        forall|b: int| 0 <= b < g.spec_n() && #[trigger] dreach(g, true, v, b) && !between(g, true, proc, v, b)
            ==> li1[b]@.contains(v as u32) || !c1[b],
        forall|a: int| 0 <= a < g.spec_n() && #[trigger] dreach(g, false, v, a) && !between(g, false, proc, v, a)
            ==> lo2[a]@.contains(v as u32) || !c2[a],
        0 <= v,
        v <= u32::MAX,
    ensures
        coverage(g, proc.insert(v), lo2, li1, c2),
{
    let p2 = proc.insert(v);
    assert forall|a: int, b: int| 0 <= a < g.spec_n() && 0 <= b < g.spec_n() && #[trigger] between(g, true, p2, a, b)
        implies meet(lo2[a]@, li1[b]@) || !c2[a] || !c2[b] by {
        if between(g, true, proc, a, b) {
            if meet(lo0[a]@, li0[b]@) {
                lemma_meet_grow(lo0[a]@, li0[b]@, lo2[a]@, li1[b]@);
            }
        } else {
            let l = choose|l: int| p2.contains(l) && #[trigger] dreach(g, true, a, l) && dreach(g, true, l, b);
            assert(l == v);
            assert(dreach(g, true, v, b));
            assert(dreach(g, false, v, a));
            assert(!between(g, true, proc, v, b)) by {
                if between(g, true, proc, v, b) {
                    let m = choose|m: int| proc.contains(m) && #[trigger] dreach(g, true, v, m) && dreach(g, true, m, b);
                    lemma_dreach_trans(g, true, a, v, m);
                    assert(between(g, true, proc, a, b));
                }
            }
            assert(!between(g, false, proc, v, a)) by {
                if between(g, false, proc, v, a) {
                    let m = choose|m: int| proc.contains(m) && #[trigger] dreach(g, false, v, m) && dreach(g, false, m, a);
                    lemma_dreach_trans(g, true, m, v, b);
                    assert(dreach(g, true, a, m));
                    assert(between(g, true, proc, a, b));
                }
            }
            if li1[b]@.contains(v as u32) && lo2[a]@.contains(v as u32) {
                let i = choose|i: int| 0 <= i < lo2[a]@.len() && lo2[a]@[i] == v as u32;
                let j = choose|j: int| 0 <= j < li1[b]@.len() && li1[b]@[j] == v as u32;
                assert(lo2[a]@[i] == li1[b]@[j]);
            }
        }
    }
}

/// After a traversal from `v`, the labels hold what they held or `v`.
proof fn lemma_content_step(g: CsrGraph, fwd: bool, proc: Set<int>, v: int, t0: Seq<Vec<u32>>, t1: Seq<Vec<u32>>)
    requires
        rows_content(g, fwd, proc, t0),
        t0.len() == t1.len(),
        forall|x: int, y: u32| 0 <= x < t1.len() && #[trigger] t1[x]@.contains(y)
            ==> t0[x]@.contains(y) || (y as int == v && dreach(g, fwd, v, x)),
    ensures
        rows_content(g, fwd, proc.insert(v), t1),
{
    assert forall|x: int| 0 <= x < t1.len() implies row_content(g, fwd, proc.insert(v), #[trigger] t1[x]@, x) by {
        let r = t1[x]@;
        assert forall|i: int| 0 <= i < r.len() implies ((#[trigger] r[i]) as int == x || proc.insert(v).contains(r[i] as int))
            && dreach(g, fwd, r[i] as int, x) by {
            assert(r.contains(r[i]));
            if t0[x]@.contains(r[i]) {
                let j = choose|j: int| 0 <= j < t0[x]@.len() && t0[x]@[j] == r[i];
                assert(row_content(g, fwd, proc, t0[x]@, x));
            }
        }
    }
}

/// Node `w` is the landmark of some entry of the processing order.
pub open spec fn in_order(keys: Seq<(u32, u32)>, w: int) -> bool {
    exists|j: int| 0 <= j < keys.len() && (#[trigger] keys[j]).1 == w
}

/// 2-hop reachability labels over a DAG (any graph gives exact answers).
#[derive(Clone, Debug)]
pub struct ReachLabels {
    /// `l_out[v]`: sorted landmarks reachable from `v`.
    pub l_out: Vec<Vec<u32>>,
    /// `l_in[v]`: sorted landmarks that can reach `v`.
    pub l_in: Vec<Vec<u32>>,
    /// Nodes whose labels were never truncated by the cap; a query touching
    /// any other node falls back to breadth-first search.
    pub complete: FixedBitSet,
}

impl ReachLabels {
    /// The labels describe `dag`: every entry of `l_out[w]` is reached from
    /// `w`, every entry of `l_in[w]` reaches `w`, and two complete nodes with
    /// `a` reaching `b` share an entry of `l_out[a]` and `l_in[b]`.
    pub open spec fn labels_for(&self, dag: CsrGraph) -> bool {
        &&& self.l_out@.len() == dag.spec_n()
        &&& self.l_in@.len() == dag.spec_n()
        &&& bits_of(self.complete).len() == dag.spec_n()
        &&& rows_ok(self.l_out@, dag.spec_n())
        &&& rows_ok(self.l_in@, dag.spec_n())
        &&& forall|w: int, i: int| 0 <= w < dag.spec_n() && 0 <= i < self.l_out@[w]@.len()
            ==> reaches(dag, w, #[trigger] self.l_out@[w]@[i] as int)
        &&& forall|w: int, i: int| 0 <= w < dag.spec_n() && 0 <= i < self.l_in@[w]@.len()
            ==> reaches(dag, #[trigger] self.l_in@[w]@[i] as int, w)
        &&& forall|a: int, b: int| 0 <= a < dag.spec_n() && 0 <= b < dag.spec_n() && bits_of(self.complete)[a]
            && bits_of(self.complete)[b] && #[trigger] reaches(dag, a, b) ==> meet(self.l_out@[a]@, self.l_in@[b]@)
    }

    /// Build labels over `dag`, landmarks taken by out-degree descending
    /// (ties by larger id first). A node whose label would grow past `cap`
    /// is marked incomplete; with a cap above the node count every node is
    /// complete.
    pub fn build(dag: &CsrGraph, cap: u32) -> (res: Self)
        requires
            dag.wf(),
        ensures
            res.labels_for(*dag),
            forall|w: int| 0 <= w < dag.spec_n() && !#[trigger] bits_of(res.complete)[w]
                ==> res.l_out@[w]@.len() >= cap || res.l_in@[w]@.len() >= cap,
    {
        let n = dag.node_count();
        let mut l_out: Vec<Vec<u32>> = Vec::new();
        let mut l_in: Vec<Vec<u32>> = Vec::new();
        let mut keys: Vec<(u32, u32)> = Vec::new();
        let mut v: u32 = 0;
        while v < n
            invariant
                dag.wf(),
                n == dag.spec_n(),
                v <= n,
                l_out@.len() == v,
                l_in@.len() == v,
                keys@.len() == v,
                forall|w: int| 0 <= w < v ==> #[trigger] l_out@[w]@ == seq![w as u32],
                forall|w: int| 0 <= w < v ==> #[trigger] l_in@[w]@ == seq![w as u32],
                forall|w: int| 0 <= w < v ==> (#[trigger] keys@[w]).1 == w,
            decreases n - v,
        {
            let mut a: Vec<u32> = Vec::new();
            a.push(v);
            let mut b: Vec<u32> = Vec::new();
            b.push(v);
            l_out.push(a);
            l_in.push(b);
            let d = dag.out_deg(v);
            keys.push((d as u32, v));
            v = v + 1;
        }
        let mut complete = bitset_with_capacity(n as usize);
        bitset_fill(&mut complete);
        let ghost keys0 = keys@;
        sort_edges(&mut keys);
        proof {
            broadcast use vstd::seq_lib::group_to_multiset_ensures;
            assert forall|j: int| 0 <= j < keys@.len() implies (#[trigger] keys@[j]).1 < n by {
                assert(keys@.contains(keys@[j]));
                assert(keys@.to_multiset().count(keys@[j]) > 0);
                assert(keys0.contains(keys@[j]));
            }
            assert forall|w: int| 0 <= w < n implies #[trigger] in_order(keys@, w) by {
                assert(keys0.contains(keys0[w]));
                assert(keys0.to_multiset().count(keys0[w]) > 0);
                assert(keys@.contains(keys0[w]));
                let j = choose|j: int| 0 <= j < keys@.len() && keys@[j] == keys0[w];
                assert(keys@[j].1 == w);
            }
            assert(keys@.len() == keys0.len()) by {
                assert(keys@.to_multiset().len() == keys0.to_multiset().len());
            }
            assert forall|w: int| 0 <= w < n implies label_ok(#[trigger] l_out@[w]@, n as nat) by {
                assert(l_out@[w]@ == seq![w as u32]);
            }
            assert forall|w: int| 0 <= w < n implies label_ok(#[trigger] l_in@[w]@, n as nat) by {
                assert(l_in@[w]@ == seq![w as u32]);
            }
            assert forall|w: int| 0 <= w < n implies (#[trigger] l_out@[w]@).contains(w as u32) by {
                assert(l_out@[w]@[0] == w as u32);
            }
            assert forall|w: int| 0 <= w < n implies (#[trigger] l_in@[w]@).contains(w as u32) by {
                assert(l_in@[w]@[0] == w as u32);
            }
            assert forall|w: int| 0 <= w < n implies row_content(*dag, false, Set::empty(), #[trigger] l_out@[w]@, w) by {
                assert(l_out@[w]@ == seq![w as u32]);
                lemma_dreach_refl(*dag, false, w);
            }
            assert forall|w: int| 0 <= w < n implies row_content(*dag, true, Set::empty(), #[trigger] l_in@[w]@, w) by {
                assert(l_in@[w]@ == seq![w as u32]);
                lemma_dreach_refl(*dag, true, w);
            }
        }
        let ghost mut proc: Set<int> = Set::empty();
        let mut k: usize = keys.len();
        while k > 0
            invariant
                dag.wf(),
                n == dag.spec_n(),
                k <= keys@.len(),
                keys@.len() == n,
                forall|j: int| 0 <= j < keys@.len() ==> (#[trigger] keys@[j]).1 < n,
                forall|w: int| 0 <= w < n ==> #[trigger] in_order(keys@, w),
                forall|j: int| k <= j < keys@.len() ==> proc.contains((#[trigger] keys@[j]).1 as int),
                l_out@.len() == n,
                l_in@.len() == n,
                bits_of(complete).len() == n,
                rows_ok(l_out@, n as nat),
                rows_ok(l_in@, n as nat),
                rows_self(l_out@),
                rows_self(l_in@),
                rows_content(*dag, false, proc, l_out@),
                rows_content(*dag, true, proc, l_in@),
                coverage(*dag, proc, l_out@, l_in@, bits_of(complete)),
                capped(cap, l_out@, l_in@, bits_of(complete)),
            decreases k,
        {
            k = k - 1;
            let v = keys[k].1;
            let ghost lo0 = l_out@;
            let ghost li0 = l_in@;
            let ghost c0 = bits_of(complete);
            pruned_traverse(dag, v, true, &mut l_in, &l_out, cap, &mut complete, Ghost(proc));
            let ghost li1 = l_in@;
            let ghost c1 = bits_of(complete);
            pruned_traverse(dag, v, false, &mut l_out, &l_in, cap, &mut complete, Ghost(proc));
            proof {
                let c2 = bits_of(complete);
                lemma_cover_step(*dag, proc, v as int, lo0, li0, c0, li1, c1, l_out@, c2);
                lemma_content_step(*dag, true, proc, v as int, li0, li1);
                lemma_content_step(*dag, false, proc, v as int, lo0, l_out@);
                assert forall|w: int| 0 <= w < c2.len() && !#[trigger] c2[w]
                    implies l_out@[w]@.len() >= cap || l_in@[w]@.len() >= cap by {
                    if c0[w] && !c1[w] {
                    } else if c1[w] {
                    } else {
                        assert(!c0[w]);
                    }
                }
                proc = proc.insert(v as int);
                assert forall|j: int| k <= j < keys@.len() implies proc.contains((#[trigger] keys@[j]).1 as int) by {
                    if j > k {
                    }
                }
            }
        }
        proof {
            assert forall|w: int, i: int| 0 <= w < n && 0 <= i < l_out@[w]@.len()
                implies reaches(*dag, w, #[trigger] l_out@[w]@[i] as int) by {
                assert(row_content(*dag, false, proc, l_out@[w]@, w));
            }
            assert forall|w: int, i: int| 0 <= w < n && 0 <= i < l_in@[w]@.len()
                implies reaches(*dag, #[trigger] l_in@[w]@[i] as int, w) by {
                assert(row_content(*dag, true, proc, l_in@[w]@, w));
            }
            assert forall|a: int, b: int| 0 <= a < n && 0 <= b < n && bits_of(complete)[a]
                && bits_of(complete)[b] && #[trigger] reaches(*dag, a, b) implies meet(l_out@[a]@, l_in@[b]@) by {
                assert(in_order(keys@, a));
                let j = choose|j: int| 0 <= j < keys@.len() && (#[trigger] keys@[j]).1 == a;
                assert(proc.contains(a));
                lemma_dreach_refl(*dag, true, a);
                assert(dreach(*dag, true, a, b));
                assert(between(*dag, true, proc, a, b));
            }
        }
        ReachLabels { l_out, l_in, complete }
    }

    /// Does `u` reach `v` in `dag`? A sorted-label intersection when both
    /// ends are complete, breadth-first search otherwise.
    pub fn reaches(&self, dag: &CsrGraph, u: u32, v: u32) -> (res: bool)
        requires
            dag.wf(),
            self.labels_for(*dag),
            u == v || u < dag.spec_n(),
        ensures
            res == reaches(*dag, u as int, v as int),
    {
        if u == v {
            proof {
                lemma_reaches_refl(*dag, u as int);
            }
            return true;
        }
        if (u as usize) < self.l_out.len() && (v as usize) < self.l_in.len() && bitset_contains(&self.complete, u as usize)
            && bitset_contains(&self.complete, v as usize) {
            let a = self.l_out[u as usize].as_slice();
            let b = self.l_in[v as usize].as_slice();
            proof {
                lemma_strict_sorted(a@);
                lemma_strict_sorted(b@);
            }
            let hit = intersects(a, b);
            proof {
                if hit {
                    let (i, j) = choose|i: int, j: int| 0 <= i < a@.len() && 0 <= j < b@.len() && #[trigger] a@[i] == #[trigger] b@[j];
                    assert(reaches(*dag, u as int, self.l_out@[u as int]@[i] as int));
                    assert(reaches(*dag, self.l_in@[v as int]@[j] as int, v as int));
                    lemma_reaches_trans(*dag, u as int, a@[i] as int, v as int);
                }
            }
            hit
        } else {
            dag.bfs_reachable(u, v)
        }
    }

    /// The node count the labels were built for.
    pub fn node_count(&self) -> (res: u32)
        requires
            self.l_out@.len() <= u32::MAX,
        ensures
            res == self.l_out@.len(),
    {
        self.l_out.len() as u32
    }
}

} // verus!
