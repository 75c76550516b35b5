//! Tarjan SCC + condensation.
//!
//! Every strongly connected component becomes one node of the condensation;
//! Tarjan runs iteratively so deep call chains cannot exhaust the stack.

use vstd::prelude::*;
use crate::index::witness::lemma_out_edges;
use crate::index::bitset::{bits_of, bitset_with_capacity, bitset_contains, bitset_insert, bitset_set};
use crate::index::graph::{CsrGraph, csr_list, reaches, lemma_reaches_refl, lemma_reaches_step, lemma_reaches_trans};
use fixedbitset::FixedBitSet;

verus! {

/// Number of nodes not yet entered.
pub open spec fn count_none(s: Seq<Option<u32>>) -> nat
    decreases s.len(),
{
    if s.len() == 0 {
        0
    } else {
        count_none(s.drop_last()) + (if s.last() is None { 1nat } else { 0nat })
    }
}

proof fn lemma_count_none_enter(s: Seq<Option<u32>>, i: int, x: u32)
    requires
        0 <= i < s.len(),
        s[i] is None,
    ensures
        count_none(s.update(i, Some(x))) + 1 == count_none(s),
    decreases s.len(),
{
    if i == s.len() - 1 {
        assert(s.update(i, Some(x)).drop_last() =~= s.drop_last());
    } else {
        lemma_count_none_enter(s.drop_last(), i, x);
        assert(s.update(i, Some(x)).drop_last() =~= s.drop_last().update(i, Some(x)));
    }
}

proof fn lemma_count_none_bound(s: Seq<Option<u32>>)
    ensures
        count_none(s) <= s.len(),
        count_none(s) == s.len() ==> forall|i: int| 0 <= i < s.len() ==> s[i] is None,
        (exists|i: int| 0 <= i < s.len() && s[i] is None) ==> count_none(s) >= 1,
    decreases s.len(),
{
    if s.len() > 0 {
        lemma_count_none_bound(s.drop_last());
        if exists|i: int| 0 <= i < s.len() && s[i] is None {
            let i = choose|i: int| 0 <= i < s.len() && s[i] is None;
            if i < s.len() - 1 {
                assert(s.drop_last()[i] is None);
            }
        }
        if count_none(s) == s.len() {
            assert forall|i: int| 0 <= i < s.len() implies s[i] is None by {
                if i < s.len() - 1 {
                    assert(s.drop_last()[i] is None);
                }
            }
        }
    }
}

/// Out-degree of `v`.
pub open spec fn deg(g: CsrGraph, v: int) -> nat {
    csr_list(g.offsets@, g.targets@, v).len()
}

/// Neighbours still to be examined by the frames on the work stack, plus one
/// per frame for its final step.
pub open spec fn work_left(g: CsrGraph, w: Seq<(u32, usize)>) -> nat
    decreases w.len(),
{
    if w.len() == 0 {
        0
    } else {
        work_left(g, w.drop_last()) + ((deg(g, w.last().0 as int) + 1 - w.last().1) as nat)
    }
}

/// The entry index of an entered node.
pub open spec fn idx_of(index: Seq<Option<u32>>, v: int) -> int {
    match index[v] {
        Some(i) => i as int,
        None => -1,
    }
}

/// Facts about Tarjan's state that hold between steps.
pub open spec fn tarjan_inv(g: CsrGraph, index: Seq<Option<u32>>, low: Seq<u32>, on: Seq<bool>, st: Seq<u32>,
    sc: Seq<u32>, next: u32, cnt: u32, base: u32) -> bool
{
    let n = g.spec_n() as int;
    &&& index.len() == n && low.len() == n && on.len() == n && sc.len() == n
    &&& next + count_none(index) == n
    &&& base <= next
    &&& forall|v: int| 0 <= v < n && (#[trigger] index[v] is Some) ==> idx_of(index, v) < next
        && low[v] <= idx_of(index, v) && (idx_of(index, v) >= base ==> low[v] >= base)
    &&& forall|k: int| 0 <= k < st.len() ==> #[trigger] st[k] < n && index[st[k] as int] is Some
        && idx_of(index, st[k] as int) >= base
    &&& forall|k: int, l: int| 0 <= k < l < st.len() ==> idx_of(index, #[trigger] st[k] as int) < idx_of(index, #[trigger] st[l] as int)
    &&& forall|v: int| 0 <= v < n ==> (#[trigger] on[v] <==> st.contains(v as u32))
    &&& forall|v: int| 0 <= v < n && (#[trigger] index[v] is Some) && !on[v] ==> sc[v] < cnt
    &&& cnt + st.len() <= next
}

/// The DFS path on the work stack: frames of nodes on the Tarjan stack, in
/// entry order, rooted at `root`.
pub open spec fn frames_inv(g: CsrGraph, index: Seq<Option<u32>>, on: Seq<bool>, st: Seq<u32>,
    work: Seq<(u32, usize)>, root: u32) -> bool
{
    let n = g.spec_n() as int;
    &&& forall|k: int| 0 <= k < work.len() ==> (#[trigger] work[k]).0 < n && on[work[k].0 as int]
        && index[work[k].0 as int] is Some && work[k].1 <= deg(g, work[k].0 as int)
    &&& forall|k: int, l: int| 0 <= k < l < work.len() ==>
        idx_of(index, (#[trigger] work[k]).0 as int) < idx_of(index, (#[trigger] work[l]).0 as int)
    &&& work.len() > 0 ==> work[0].0 == root && st.len() > 0 && st[0] == root
    &&& work.len() == 0 ==> st.len() == 0
}

proof fn lemma_work_left_push(g: CsrGraph, w: Seq<(u32, usize)>, f: (u32, usize))
    ensures
        work_left(g, w.push(f)) == work_left(g, w) + ((deg(g, f.0 as int) + 1 - f.1) as nat),
{
    assert(w.push(f).drop_last() =~= w);
}

/// Some node has component id `a`.
pub open spec fn id_used(ids: Seq<u32>, a: int) -> bool {
    exists|v: int| 0 <= v < ids.len() && ids[v] == a
}

/// `rep[a]` is a finished node of component `a`, for every component
/// numbered so far.
#[verifier::opaque]
pub open spec fn reps_ok(rep: Seq<u32>, index: Seq<Option<u32>>, on: Seq<bool>, sc: Seq<u32>) -> bool {
    forall|a: int| 0 <= a < rep.len() ==> {
        &&& #[trigger] rep[a] < index.len()
        &&& rep[a] < on.len()
        &&& rep[a] < sc.len()
        &&& index[rep[a] as int] is Some
        &&& !on[rep[a] as int]
        &&& sc[rep[a] as int] == a
    }
}

/// Entering an unvisited node keeps the representatives.
proof fn lemma_reps_enter(rep: Seq<u32>, index: Seq<Option<u32>>, on: Seq<bool>, sc: Seq<u32>, w: int, x: u32)
    requires
        reps_ok(rep, index, on, sc),
        0 <= w < index.len(),
        index.len() == on.len(),
        index[w] is None,
    ensures
        reps_ok(rep, index.update(w, Some(x)), on.update(w, true), sc),
{
    reveal(reps_ok);
    let i2 = index.update(w, Some(x));
    let o2 = on.update(w, true);
    assert forall|a: int| 0 <= a < rep.len() implies {
        &&& #[trigger] rep[a] < i2.len()
        &&& rep[a] < o2.len()
        &&& rep[a] < sc.len()
        &&& i2[rep[a] as int] is Some
        &&& !o2[rep[a] as int]
        &&& sc[rep[a] as int] == a
    } by {
        assert(rep[a] != w);
    }
}

/// Popping a node off the stack into component `c` keeps the
/// representatives.
proof fn lemma_reps_pop(rep: Seq<u32>, index: Seq<Option<u32>>, on: Seq<bool>, sc: Seq<u32>, w: int, c: u32)
    requires
        reps_ok(rep, index, on, sc),
        0 <= w < on.len(),
        on.len() == sc.len(),
        on[w],
    ensures
        reps_ok(rep, index, on.update(w, false), sc.update(w, c)),
{
    reveal(reps_ok);
    let o2 = on.update(w, false);
    let s2 = sc.update(w, c);
    assert forall|a: int| 0 <= a < rep.len() implies {
        &&& #[trigger] rep[a] < index.len()
        &&& rep[a] < o2.len()
        &&& rep[a] < s2.len()
        &&& index[rep[a] as int] is Some
        &&& !o2[rep[a] as int]
        &&& s2[rep[a] as int] == a
    } by {
        assert(rep[a] != w);
    }
}

/// A finished node of the newest component represents it.
proof fn lemma_reps_push(rep: Seq<u32>, index: Seq<Option<u32>>, on: Seq<bool>, sc: Seq<u32>, v: u32)
    requires
        reps_ok(rep, index, on, sc),
        v < index.len(),
        v < on.len(),
        v < sc.len(),
        index[v as int] is Some,
        !on[v as int],
        sc[v as int] == rep.len(),
    ensures
        reps_ok(rep.push(v), index, on, sc),
{
    reveal(reps_ok);
}

/// Iterative Tarjan. Returns `scc_of` (one component id per node) and the
/// number of components. Two nodes share a component exactly when each
/// reaches the other, and components are numbered in the order they are
/// completed, so an edge never leads to a higher number.
#[verifier::rlimit(100)]
#[verifier::spinoff_prover]
pub fn tarjan_scc(g: &CsrGraph) -> (res: (Vec<u32>, u32))
    requires
        g.wf(),
    ensures
        res.0@.len() == g.spec_n(),
        res.1 <= g.spec_n(),
        forall|v: int| 0 <= v < g.spec_n() ==> #[trigger] res.0@[v] < res.1,
        forall|u: int, v: int|
            #![trigger res.0@[u], res.0@[v]]
            #![trigger reaches(*g, u, v), reaches(*g, v, u)]
            0 <= u < g.spec_n() && 0 <= v < g.spec_n()
            ==> (res.0@[u] == res.0@[v] <==> reaches(*g, u, v) && reaches(*g, v, u)),
        forall|u: int, v: int| #[trigger] g.edge(u, v) ==> res.0@[v] <= res.0@[u],
        forall|a: int| 0 <= a < res.1 ==> #[trigger] id_used(res.0@, a),
{
    let n = g.node_count() as usize;
    let mut index: Vec<Option<u32>> = Vec::new();
    let mut lowlink: Vec<u32> = Vec::new();
    let mut scc_of: Vec<u32> = Vec::new();
    let mut fill: usize = 0;
    while fill < n
        invariant
            fill <= n,
            index@.len() == fill && lowlink@.len() == fill && scc_of@.len() == fill,
            forall|v: int| 0 <= v < fill ==> #[trigger] index@[v] is None,
        decreases n - fill,
    {
        index.push(None);
        lowlink.push(0);
        scc_of.push(0);
        fill = fill + 1;
    }
    let mut on_stack = bitset_with_capacity(n);
    let mut stack: Vec<u32> = Vec::new();
    let mut next_index: u32 = 0;
    let mut scc_count: u32 = 0;
    let ghost mut rep: Seq<u32> = Seq::empty();
    proof {
        reveal(reps_ok);
        assert(count_none(index@) == n) by {
            lemma_count_none_all(index@);
        }
        lemma_ok_init(*g, index@, lowlink@, bits_of(on_stack), scc_of@);
    }

    let mut root: usize = 0;
    while root < n
        invariant
            g.wf(),
            n == g.spec_n(),
            root <= n,
            tarjan_inv(*g, index@, lowlink@, bits_of(on_stack), stack@, scc_of@, next_index, scc_count, next_index),
            tarjan_ok(*g, index@, lowlink@, bits_of(on_stack), stack@, scc_of@, Seq::empty()),
            stack@.len() == 0,
            forall|v: int| 0 <= v < root ==> #[trigger] index@[v] is Some,
            reps_ok(rep, index@, bits_of(on_stack), scc_of@),
            rep.len() == scc_count,
        decreases n - root,
    {
        if index[root].is_some() {
            root = root + 1;
            continue;
        }
        let r = root as u32;
        let base = next_index;
        proof {
            lemma_count_none_bound(index@);
        }
        // Enter the root.
        proof {
            lemma_count_none_enter(index@, r as int, next_index);
            lemma_enter(*g, index@, lowlink@, bits_of(on_stack), stack@, scc_of@, next_index, scc_count, base,
                Seq::empty(), r, r);
            assert(Seq::<(u32, usize)>::empty().push((r, 0usize)) =~= seq![(r, 0usize)]);
            assert forall|v: int| 0 <= v < g.spec_n() implies !#[trigger] bits_of(on_stack)[v] by {
                if bits_of(on_stack)[v] {
                    assert(stack@.contains(v as u32));
                }
            }
            assert(stack@ =~= Seq::<u32>::empty());
            lemma_ok_enter_root(*g, index@, lowlink@, bits_of(on_stack), scc_of@, next_index, r);
            assert(stack@.push(r) =~= seq![r]);
            lemma_reps_enter(rep, index@, bits_of(on_stack), scc_of@, root as int, next_index);
        }
        index.set(root, Some(next_index));
        lowlink.set(root, next_index);
        next_index = next_index + 1;
        stack.push(r);
        bitset_insert(&mut on_stack, root);
        let mut work: Vec<(u32, usize)> = Vec::new();
        work.push((r, 0));

        while work.len() > 0
            invariant
                g.wf(),
                n == g.spec_n(),
                root < n,
                r == root,
                tarjan_inv(*g, index@, lowlink@, bits_of(on_stack), stack@, scc_of@, next_index, scc_count, base),
                frames_inv(*g, index@, bits_of(on_stack), stack@, work@, r),
                tarjan_ok(*g, index@, lowlink@, bits_of(on_stack), stack@, scc_of@, work@),
                index@[root as int] == Some(base),
                forall|v: int| 0 <= v < root ==> #[trigger] index@[v] is Some,
                reps_ok(rep, index@, bits_of(on_stack), scc_of@),
                rep.len() == scc_count,
            decreases count_none(index@), work_left(*g, work@),
        {
            let ghost work_before = work@;
            let (node, nxt) = work.pop().unwrap();
            proof {
                assert(work_before =~= work@.push((node, nxt)));
                lemma_work_left_push(*g, work@, (node, nxt));
                assert(work_before[work_before.len() - 1] == (node, nxt));
            }
            let neighbors = g.out(node);
            if nxt < neighbors.len() {
                let w = neighbors[nxt];
                proof {
                    assert(g.offsets@[node as int] <= g.offsets@[node as int + 1] <= g.offsets@[n as int]);
                    assert(g.targets@[g.offsets@[node as int] + nxt] == w);
                    assert(nxt < deg(*g, node as int));
                    assert(w as int == succ(*g, node as int, nxt as int));
                }
                work.push((node, nxt + 1));
                proof {
                    lemma_work_left_push(*g, work@.drop_last(), (node, (nxt + 1) as usize));
                    assert(work@.drop_last() =~= work_before.drop_last());
                    assert(work@ =~= work_before.drop_last().push((node, (nxt + 1) as usize)));
                    lemma_frames_bump(*g, index@, bits_of(on_stack), stack@, work_before, r, node, nxt);
                }
                match index[w as usize] {
                    None => {
                        // Enter `w`.
                        let ghost i0 = index@;
                        let ghost l0 = lowlink@;
                        let ghost o0 = bits_of(on_stack);
                        let ghost s0 = stack@;
                        let ghost w0 = work@;
                        let ghost x0 = next_index;
                        proof {
                            lemma_count_none_enter(index@, w as int, next_index);
                            lemma_count_none_bound(index@);
                            lemma_ok_enter_child(*g, index@, lowlink@, bits_of(on_stack), stack@, scc_of@, next_index,
                                scc_count, base, work_before, r, node, nxt, w);
                            lemma_enter(*g, index@, lowlink@, bits_of(on_stack), stack@, scc_of@, next_index, scc_count, base,
                                work@, r, w);
                            lemma_reps_enter(rep, index@, bits_of(on_stack), scc_of@, w as int, next_index);
                        }
                        index.set(w as usize, Some(next_index));
                        lowlink.set(w as usize, next_index);
                        next_index = next_index + 1;
                        stack.push(w);
                        bitset_insert(&mut on_stack, w as usize);
                        work.push((w, 0));
                        proof {
                            assert(index@ == i0.update(w as int, Some(x0)));
                            assert(lowlink@ == l0.update(w as int, x0));
                            assert(bits_of(on_stack) == o0.update(w as int, true));
                            assert(stack@ == s0.push(w));
                            assert(work@ == w0.push((w, 0usize)));
                        }
                    },
                    Some(iw) => {
                        let ghost l0 = lowlink@;
                        let ghost onw = bits_of(on_stack)[w as int];
                        if bitset_contains(&on_stack, w as usize) {
                            let lv = lowlink[node as usize];
                            let nl = if iw < lv { iw } else { lv };
                            lowlink.set(node as usize, nl);
                        }
                        proof {
                            assert(idx_of(index@, w as int) == iw);
                            assert(w < bits_of(on_stack).len());
                            lemma_ok_seen(*g, index@, l0, bits_of(on_stack), stack@, scc_of@, next_index, scc_count,
                                base, work_before, r, node, nxt, w, lowlink@);
                        }
                    },
                }
            } else {
                // Every neighbour of `node` has been examined.
                let ghost rest = work@;
                let ghost st0 = stack@;
                let ghost on0 = bits_of(on_stack);
                let ghost sc0 = scc_of@;
                let ghost low0 = lowlink@;
                proof {
                    assert(nxt as int == deg(*g, node as int));
                    lemma_frames_done(*g, index@, bits_of(on_stack), stack@, work_before, r, node);
                    assert(work_before =~= rest.push((node, nxt)));
                    assert(bits_of(on_stack)[node as int]);
                }
                proof {
                    assert(frames_inv(*g, index@, on0, st0, work_before, r));
                    assert(tarjan_ok(*g, index@, low0, on0, st0, sc0, work_before));
                    assert(tarjan_inv(*g, index@, low0, on0, st0, sc0, next_index, scc_count, base));
                }
                let ghost mut popped: bool = false;
                let ix = match index[node as usize] {
                    Some(i) => i,
                    None => 0,
                };
                if lowlink[node as usize] == ix {
                    let ghost k0 = choose|k: int| 0 <= k < st0.len() && st0[k] == node;
                    loop
                        invariant_except_break
                            k0 < stack@.len(),
                        invariant
                            g.wf(),
                            n == g.spec_n(),
                            0 <= k0 < st0.len(),
                            st0[k0] == node,
                            stack@.len() <= st0.len(),
                            stack@ == st0.subrange(0, stack@.len() as int),
                            tarjan_inv(*g, index@, low0, on0, st0, sc0, next_index, scc_count, base),
                            lowlink@ == low0,
                            bits_of(on_stack).len() == n,
                            scc_of@.len() == n,
                            forall|v: int| 0 <= v < n ==> (#[trigger] bits_of(on_stack)[v] <==> stack@.contains(v as u32)),
                            forall|v: int| 0 <= v < n && (#[trigger] index@[v] is Some) && !bits_of(on_stack)[v]
                                ==> scc_of@[v] <= scc_count,
                            forall|j: int| stack@.len() <= j < st0.len() ==> #[trigger] scc_of@[st0[j] as int] == scc_count,
                            forall|v: int| 0 <= v < n && !on0[v] ==> #[trigger] scc_of@[v] == sc0[v],
                            reps_ok(rep, index@, bits_of(on_stack), scc_of@),
                        ensures
                            reps_ok(rep, index@, bits_of(on_stack), scc_of@),
                            !bits_of(on_stack)[node as int],
                            stack@ == st0.subrange(0, k0),
                            forall|j: int| k0 <= j < st0.len() ==> #[trigger] scc_of@[st0[j] as int] == scc_count,
                            forall|v: int| 0 <= v < n && !on0[v] ==> #[trigger] scc_of@[v] == sc0[v],
                            bits_of(on_stack).len() == n,
                            scc_of@.len() == n,
                            forall|v: int| 0 <= v < n ==> (#[trigger] bits_of(on_stack)[v] <==> stack@.contains(v as u32)),
                            forall|v: int| 0 <= v < n && (#[trigger] index@[v] is Some) && !bits_of(on_stack)[v]
                                ==> scc_of@[v] <= scc_count,
                        decreases stack@.len(),
                    {
                        let ghost len0 = stack@.len();
                        let ghost stack_prev = stack@;
                        let ghost on_prev = bits_of(on_stack);
                        let ghost sc_prev = scc_of@;
                        let w = stack.pop().unwrap();
                        proof {
                            assert(stack_prev =~= stack@.push(w));
                            assert(w == st0[len0 - 1]);
                            assert(stack@ =~= st0.subrange(0, len0 - 1));
                            assert(w < n);
                            assert(!stack@.contains(w)) by {
                                if stack@.contains(w) {
                                    let j = choose|j: int| 0 <= j < stack@.len() && stack@[j] == w;
                                    assert(st0[j] == st0[len0 - 1]);
                                }
                            }
                        }
                        proof {
                            assert(on_prev[w as int]);
                            lemma_reps_pop(rep, index@, on_prev, sc_prev, w as int, scc_count);
                        }
                        bitset_set(&mut on_stack, w as usize, false);
                        scc_of.set(w as usize, scc_count);
                        proof {
                            assert forall|v: int| 0 <= v < n implies (#[trigger] bits_of(on_stack)[v] <==> stack@.contains(v as u32)) by {
                                if v != w {
                                    if stack@.contains(v as u32) {
                                        let j = choose|j: int| 0 <= j < stack@.len() && stack@[j] == v as u32;
                                        assert(stack_prev[j] == v as u32);
                                    }
                                    if stack_prev.contains(v as u32) {
                                        let j = choose|j: int| 0 <= j < stack_prev.len() && stack_prev[j] == v as u32;
                                        assert(j != stack_prev.len() - 1);
                                        assert(stack@[j] == v as u32);
                                    }
                                }
                            }
                            assert forall|v: int| 0 <= v < n && (#[trigger] index@[v] is Some) && !bits_of(on_stack)[v]
                                implies scc_of@[v] <= scc_count by {
                                if v != w {
                                    assert(!on_prev[v]);
                                }
                            }
                            assert forall|j: int| stack@.len() <= j < st0.len() implies #[trigger] scc_of@[st0[j] as int] == scc_count by {
                                if j > len0 - 1 {
                                    assert(idx_of(index@, st0[len0 - 1] as int) < idx_of(index@, st0[j] as int));
                                    assert(sc_prev[st0[j] as int] == scc_count);
                                }
                            }
                            assert forall|v: int| 0 <= v < n && !on0[v] implies #[trigger] scc_of@[v] == sc0[v] by {
                                assert(st0.contains(w));
                                assert(v != w);
                            }
                        }
                        if w == node {
                            proof {
                                if len0 - 1 != k0 {
                                    assert(idx_of(index@, st0[k0] as int) < idx_of(index@, st0[len0 - 1] as int));
                                }
                            }
                            break;
                        }
                        proof {
                            assert(len0 - 1 != k0);
                        }
                    }
                    proof {
                        lemma_after_pop(*g, index@, lowlink@, st0, on0, sc0, stack@, bits_of(on_stack), scc_of@,
                            next_index, scc_count, base, rest, r, node, k0);
                        lemma_ok_finish_pop(*g, index@, low0, on0, st0, sc0, next_index, scc_count, base, work_before,
                            r, node, k0, bits_of(on_stack), scc_of@);
                        assert(work_before.drop_last() =~= rest);
                        popped = true;
                        assert(st0[k0] == node);
                        assert(index@[node as int] is Some);
                        lemma_reps_push(rep, index@, bits_of(on_stack), scc_of@, node);
                        rep = rep.push(node);
                    }
                    scc_count = scc_count + 1;
                } else {
                    proof {
                        if rest.len() == 0 {
                            assert(work_before[0].0 == r);
                            assert(idx_of(index@, node as int) == base);
                        }
                        assert(frames_inv(*g, index@, bits_of(on_stack), stack@, work@, r));
                    }
                }
                if work.len() > 0 {
                    let last = work.len() - 1;
                    let parent = work[last].0;
                    let lp = lowlink[parent as usize];
                    let lc = lowlink[node as usize];
                    let nl = if lc < lp { lc } else { lp };
                    proof {
                        lemma_lower_parent(*g, index@, lowlink@, bits_of(on_stack), stack@, scc_of@, next_index,
                            scc_count, base, parent, node, st0);
                    }
                    lowlink.set(parent as usize, nl);
                }
                proof {
                    lemma_work_left_push(*g, rest, (node, nxt));
                    if popped {
                        if rest.len() > 0 {
                            let p = rest[rest.len() - 1].0;
                            assert(idx_of(index@, p as int) < idx_of(index@, node as int));
                            assert(index@[p as int] is Some);
                            assert(lowlink@ =~= low0);
                        }
                    } else {
                        assert(work_before.drop_last() =~= rest);
                        lemma_ok_finish_keep(*g, index@, low0, on0, st0, sc0, next_index, scc_count, base, work_before,
                            r, node, lowlink@);
                    }
                }
            }
        }
        proof {
            assert(work@ =~= Seq::<(u32, usize)>::empty());
        }
        root = root + 1;
    }
    proof {
        assert forall|v: int| 0 <= v < g.spec_n() implies #[trigger] scc_of@[v] < scc_count by {
            assert(index@[v] is Some);
            assert(!stack@.contains(v as u32));
        }
        assert forall|v: int| 0 <= v < g.spec_n() implies #[trigger] index@[v] is Some && !bits_of(on_stack)[v] by {
            assert(!stack@.contains(v as u32));
        }
        assert(stack@ =~= Seq::<u32>::empty());
        lemma_ok_edges(*g, index@, lowlink@, bits_of(on_stack), scc_of@);
        assert forall|u: int, v: int|
            #![trigger scc_of@[u], scc_of@[v]]
            #![trigger reaches(*g, u, v), reaches(*g, v, u)]
            0 <= u < g.spec_n() && 0 <= v < g.spec_n()
            implies (scc_of@[u] == scc_of@[v] <==> reaches(*g, u, v) && reaches(*g, v, u)) by {
            lemma_ok_pair(*g, index@, lowlink@, bits_of(on_stack), scc_of@, u, v);
        }
        reveal(reps_ok);
        assert forall|a: int| 0 <= a < scc_count implies #[trigger] id_used(scc_of@, a) by {
            assert(scc_of@[rep[a] as int] == a);
        }
    }
    (scc_of, scc_count)
}


proof fn lemma_enter(g: CsrGraph, index: Seq<Option<u32>>, low: Seq<u32>, on: Seq<bool>, st: Seq<u32>,
    sc: Seq<u32>, next: u32, cnt: u32, base: u32, work: Seq<(u32, usize)>, root: u32, w: u32)
    requires
        tarjan_inv(g, index, low, on, st, sc, next, cnt, base),
        frames_inv(g, index, on, st, work, root),
        0 <= w < g.spec_n(),
        index[w as int] is None,
        work.len() == 0 ==> w == root && base == next,
        next < u32::MAX,
    ensures
        tarjan_inv(g, index.update(w as int, Some(next)), low.update(w as int, next), on.update(w as int, true),
            st.push(w), sc, (next + 1) as u32, cnt, base),
        frames_inv(g, index.update(w as int, Some(next)), on.update(w as int, true), st.push(w),
            work.push((w, 0usize)), root),
{
    let n = g.spec_n() as int;
    let index2 = index.update(w as int, Some(next));
    let low2 = low.update(w as int, next);
    let on2 = on.update(w as int, true);
    let st2 = st.push(w);
    let work2 = work.push((w, 0usize));
    lemma_count_none_enter(index, w as int, next);
    assert(!st.contains(w)) by {
        if st.contains(w) {
            let k = choose|k: int| 0 <= k < st.len() && st[k] == w;
            assert(index[st[k] as int] is Some);
        }
    }
    assert forall|v: int| 0 <= v < n && (#[trigger] index2[v] is Some) implies idx_of(index2, v) < next + 1
        && low2[v] <= idx_of(index2, v) && (idx_of(index2, v) >= base ==> low2[v] >= base) by {
        if v != w {
            assert(index[v] is Some);
        }
    }
    assert forall|k: int| 0 <= k < st2.len() implies #[trigger] st2[k] < n && index2[st2[k] as int] is Some
        && idx_of(index2, st2[k] as int) >= base by {
        if k < st.len() {
            assert(st2[k] == st[k]);
            assert(st[k] != w);
        }
    }
    assert forall|k: int, l: int| 0 <= k < l < st2.len() implies
        idx_of(index2, #[trigger] st2[k] as int) < idx_of(index2, #[trigger] st2[l] as int) by {
        assert(st2[k] == st[k]);
        assert(st[k] != w);
        assert(index[st[k] as int] is Some);
        if l < st.len() {
            assert(st2[l] == st[l]);
            assert(st[l] != w);
        }
    }
    assert forall|v: int| 0 <= v < n implies (#[trigger] on2[v] <==> st2.contains(v as u32)) by {
        if v == w {
            assert(st2[st.len() as int] == w);
        } else {
            if st2.contains(v as u32) {
                let k = choose|k: int| 0 <= k < st2.len() && st2[k] == v as u32;
                assert(k < st.len());
                assert(st[k] == v as u32);
            }
            if st.contains(v as u32) {
                let k = choose|k: int| 0 <= k < st.len() && st[k] == v as u32;
                assert(st2[k] == v as u32);
            }
        }
    }
    assert forall|v: int| 0 <= v < n && (#[trigger] index2[v] is Some) && !on2[v] implies sc[v] < cnt by {
        assert(v != w);
    }
    assert forall|k: int| 0 <= k < work2.len() implies (#[trigger] work2[k]).0 < n && on2[work2[k].0 as int]
        && index2[work2[k].0 as int] is Some && work2[k].1 <= deg(g, work2[k].0 as int) by {
        if k < work.len() {
            assert(work2[k] == work[k]);
            assert(work[k].0 != w);
        }
    }
    assert forall|k: int, l: int| 0 <= k < l < work2.len() implies
        idx_of(index2, (#[trigger] work2[k]).0 as int) < idx_of(index2, (#[trigger] work2[l]).0 as int) by {
        assert(work2[k] == work[k]);
        assert(work[k].0 != w);
        if l < work.len() {
            assert(work2[l] == work[l]);
            assert(work[l].0 != w);
        }
    }
    if work.len() > 0 {
        assert(work2[0] == work[0]);
        assert(st2[0] == st[0]);
    } else {
        assert(work2[0] == (w, 0usize));
        assert(st2[0] == w);
    }
}

proof fn lemma_frames_bump(g: CsrGraph, index: Seq<Option<u32>>, on: Seq<bool>, st: Seq<u32>,
    work: Seq<(u32, usize)>, root: u32, node: u32, nxt: usize)
    requires
        frames_inv(g, index, on, st, work, root),
        work.len() > 0,
        work.last() == (node, nxt),
        nxt < deg(g, node as int),
    ensures
        frames_inv(g, index, on, st, work.drop_last().push((node, (nxt + 1) as usize)), root),
{
    let w2 = work.drop_last().push((node, (nxt + 1) as usize));
    assert forall|k: int| 0 <= k < w2.len() implies (#[trigger] w2[k]).0 < g.spec_n() && on[w2[k].0 as int]
        && index[w2[k].0 as int] is Some && w2[k].1 <= deg(g, w2[k].0 as int) by {
        assert(w2[k].0 == work[k].0);
    }
    assert forall|k: int, l: int| 0 <= k < l < w2.len() implies
        idx_of(index, (#[trigger] w2[k]).0 as int) < idx_of(index, (#[trigger] w2[l]).0 as int) by {
        assert(w2[k].0 == work[k].0);
        assert(w2[l].0 == work[l].0);
    }
    assert(w2[0].0 == work[0].0);
}

/// Dropping the finished top frame keeps the frame facts, except for the
/// empty-work clause.
proof fn lemma_frames_done(g: CsrGraph, index: Seq<Option<u32>>, on: Seq<bool>, st: Seq<u32>,
    work: Seq<(u32, usize)>, root: u32, node: u32)
    requires
        frames_inv(g, index, on, st, work, root),
        work.len() > 0,
        work.last().0 == node,
    ensures
        forall|k: int| 0 <= k < work.len() - 1 ==> (#[trigger] work.drop_last()[k]).0 < g.spec_n()
            && on[work.drop_last()[k].0 as int] && index[work.drop_last()[k].0 as int] is Some
            && work.drop_last()[k].1 <= deg(g, work.drop_last()[k].0 as int)
            && idx_of(index, work.drop_last()[k].0 as int) < idx_of(index, node as int),
        forall|k: int, l: int| 0 <= k < l < work.len() - 1 ==>
            idx_of(index, (#[trigger] work.drop_last()[k]).0 as int) < idx_of(index, (#[trigger] work.drop_last()[l]).0 as int),
        work.len() > 1 ==> work.drop_last()[0].0 == root,
        work.len() == 1 ==> node == root,
        on[node as int],
        index[node as int] is Some,
{
    let w2 = work.drop_last();
    assert forall|k: int| 0 <= k < work.len() - 1 implies (#[trigger] w2[k]).0 < g.spec_n()
        && on[w2[k].0 as int] && index[w2[k].0 as int] is Some && w2[k].1 <= deg(g, w2[k].0 as int)
        && idx_of(index, w2[k].0 as int) < idx_of(index, node as int) by {
        assert(w2[k] == work[k]);
        assert(work[work.len() - 1].0 == node);
    }
    assert forall|k: int, l: int| 0 <= k < l < work.len() - 1 implies
        idx_of(index, (#[trigger] w2[k]).0 as int) < idx_of(index, (#[trigger] w2[l]).0 as int) by {
        assert(w2[k] == work[k]);
        assert(w2[l] == work[l]);
    }
    if work.len() > 1 {
        assert(w2[0] == work[0]);
    }
    assert(work[work.len() - 1].0 == node);
}

/// After popping the component rooted at `node`, the Tarjan facts hold with
/// one more component, and the remaining frames are still on the stack.
proof fn lemma_after_pop(g: CsrGraph, index: Seq<Option<u32>>, low: Seq<u32>, st0: Seq<u32>, on0: Seq<bool>,
    sc0: Seq<u32>, st: Seq<u32>, on: Seq<bool>, sc: Seq<u32>, next: u32, cnt: u32, base: u32,
    rest: Seq<(u32, usize)>, root: u32, node: u32, k0: int)
    requires
        tarjan_inv(g, index, low, on0, st0, sc0, next, cnt, base),
        0 <= k0 < st0.len(),
        st0[k0] == node,
        st == st0.subrange(0, k0),
        on.len() == g.spec_n(),
        sc.len() == g.spec_n(),
        forall|v: int| 0 <= v < g.spec_n() ==> (#[trigger] on[v] <==> st.contains(v as u32)),
        forall|v: int| 0 <= v < g.spec_n() && (#[trigger] index[v] is Some) && !on[v] ==> sc[v] <= cnt,
        forall|k: int| 0 <= k < rest.len() ==> (#[trigger] rest[k]).0 < g.spec_n()
            && on0[rest[k].0 as int] && index[rest[k].0 as int] is Some
            && rest[k].1 <= deg(g, rest[k].0 as int)
            && idx_of(index, rest[k].0 as int) < idx_of(index, node as int),
        forall|k: int, l: int| 0 <= k < l < rest.len() ==>
            idx_of(index, (#[trigger] rest[k]).0 as int) < idx_of(index, (#[trigger] rest[l]).0 as int),
        rest.len() > 0 ==> rest[0].0 == root && st0[0] == root,
        rest.len() == 0 ==> node == root && st0[0] == root,
    ensures
        cnt < u32::MAX,
        tarjan_inv(g, index, low, on, st, sc, next, (cnt + 1) as u32, base),
        frames_inv(g, index, on, st, rest, root),
{
    let n = g.spec_n() as int;
    assert forall|k: int| 0 <= k < rest.len() implies on[(#[trigger] rest[k]).0 as int] by {
        let f = rest[k].0;
        assert(st0.contains(f));
        let j = choose|j: int| 0 <= j < st0.len() && st0[j] == f;
        if j >= k0 {
            if j > k0 {
                assert(idx_of(index, st0[k0] as int) < idx_of(index, st0[j] as int));
            }
        }
        assert(j < k0);
        assert(st[j] == f);
    }
    if rest.len() > 0 {
        assert(on[root as int]);
        let j = choose|j: int| 0 <= j < st.len() && st[j] == root;
        assert(st0[j] == root);
        if j > 0 {
            assert(idx_of(index, st0[0] as int) < idx_of(index, st0[j] as int));
        }
        assert(st[0] == root);
    } else {
        if k0 > 0 {
            assert(idx_of(index, st0[0] as int) < idx_of(index, st0[k0] as int));
        }
    }
    assert forall|k: int| 0 <= k < st.len() implies #[trigger] st[k] < n && index[st[k] as int] is Some
        && idx_of(index, st[k] as int) >= base by {
        assert(st[k] == st0[k]);
    }
    assert forall|k: int, l: int| 0 <= k < l < st.len() implies
        idx_of(index, #[trigger] st[k] as int) < idx_of(index, #[trigger] st[l] as int) by {
        assert(st[k] == st0[k]);
        assert(st[l] == st0[l]);
    }
}

/// Lowering the parent frame's lowlink to the finished child's keeps the
/// Tarjan facts.
proof fn lemma_lower_parent(g: CsrGraph, index: Seq<Option<u32>>, low: Seq<u32>, on: Seq<bool>, st: Seq<u32>,
    sc: Seq<u32>, next: u32, cnt: u32, base: u32, parent: u32, node: u32, st0: Seq<u32>)
    requires
        tarjan_inv(g, index, low, on, st, sc, next, cnt, base),
        0 <= parent < g.spec_n(),
        index[parent as int] is Some,
        0 <= node < g.spec_n(),
        index[node as int] is Some,
        st0.contains(node),
        forall|k: int| 0 <= k < st0.len() ==> idx_of(index, #[trigger] st0[k] as int) >= base,
    ensures
        tarjan_inv(g, index, low.update(parent as int, if low[node as int] < low[parent as int] {
            low[node as int] } else { low[parent as int] }), on, st, sc, next, cnt, base),
{
    let j = choose|j: int| 0 <= j < st0.len() && st0[j] == node;
    assert(idx_of(index, st0[j] as int) >= base);
}

proof fn lemma_count_none_all(s: Seq<Option<u32>>)
    requires
        forall|i: int| 0 <= i < s.len() ==> #[trigger] s[i] is None,
    ensures
        count_none(s) == s.len(),
    decreases s.len(),
{
    if s.len() > 0 {
        lemma_count_none_all(s.drop_last());
    }
}

// ---------------------------------------------------------------------------
// What Tarjan's state means: reachability along the DFS path and the stack,
// lowlinks witnessed by reachable stack nodes, and finished components that
// are closed and strongly connected.

/// Neighbour `t` of `x`.
spec fn succ(g: CsrGraph, x: int, t: int) -> int {
    csr_list(g.offsets@, g.targets@, x)[t] as int
}

/// `x` is the node of a frame on the DFS path.
spec fn on_path(work: Seq<(u32, usize)>, x: int) -> bool {
    exists|i: int| 0 <= i < work.len() && work[i].0 as int == x
}

/// Frame `i` is the deepest frame entered no later than `x`.
spec fn deepest(index: Seq<Option<u32>>, work: Seq<(u32, usize)>, i: int, x: int) -> bool {
    &&& 0 <= i < work.len()
    &&& idx_of(index, work[i].0 as int) <= idx_of(index, x)
    &&& (i + 1 == work.len() || idx_of(index, x) < idx_of(index, work[i + 1].0 as int))
}

/// Edge `t` of frame `i` is the one that entered the frame above it.
spec fn to_child(work: Seq<(u32, usize)>, i: int, t: int, y: int) -> bool {
    i + 1 < work.len() && t + 1 == work[i].1 && work[i + 1].0 as int == y
}

/// An examined edge `x -> y`: `y` has been entered, and while `y` is on the
/// stack, `x`'s lowlink is at most `y`'s index.
spec fn edge_seen(index: Seq<Option<u32>>, low: Seq<u32>, on: Seq<bool>, x: int, y: int) -> bool {
    index[y] is Some && (on[y] ==> low[x] <= idx_of(index, y))
}

/// An edge out of a finished component: it leads to a finished component
/// numbered no higher.
spec fn edge_done(index: Seq<Option<u32>>, on: Seq<bool>, sc: Seq<u32>, x: int, y: int) -> bool {
    index[y] is Some && !on[y] && sc[y] <= sc[x]
}

/// The lowlink of `x` is the index of a stack node that `x` reaches.
spec fn low_witness(g: CsrGraph, index: Seq<Option<u32>>, low: Seq<u32>, st: Seq<u32>, x: int) -> bool {
    exists|j: int| 0 <= j < st.len() && idx_of(index, st[j] as int) == low[x] && #[trigger] reaches(g, x, st[j] as int)
}

/// The meaning of Tarjan's state.
#[verifier::opaque]
spec fn tarjan_ok(g: CsrGraph, index: Seq<Option<u32>>, low: Seq<u32>, on: Seq<bool>, st: Seq<u32>,
    sc: Seq<u32>, work: Seq<(u32, usize)>) -> bool
{
    let n = g.spec_n() as int;
    &&& forall|i: int, k: int| 0 <= i < work.len() && 0 <= k < st.len()
        && idx_of(index, work[i].0 as int) <= idx_of(index, st[k] as int)
        ==> #[trigger] reaches(g, work[i].0 as int, st[k] as int)
    &&& forall|i: int, k: int| 0 <= k < st.len() && #[trigger] deepest(index, work, i, st[k] as int)
        ==> reaches(g, st[k] as int, work[i].0 as int) && low[work[i].0 as int] <= low[st[k] as int]
    &&& forall|k: int| 0 <= k < st.len() ==> #[trigger] low_witness(g, index, low, st, st[k] as int)
    &&& forall|i: int, t: int| 0 <= i < work.len() && 0 <= t < work[i].1
        && !to_child(work, i, t, succ(g, work[i].0 as int, t))
        ==> #[trigger] edge_seen(index, low, on, work[i].0 as int, succ(g, work[i].0 as int, t))
    &&& forall|x: int, t: int| 0 <= x < n && index[x] is Some && on[x] && !on_path(work, x) && 0 <= t < deg(g, x)
        ==> #[trigger] edge_seen(index, low, on, x, succ(g, x, t))
    &&& forall|x: int, t: int| 0 <= x < n && index[x] is Some && !on[x] && 0 <= t < deg(g, x)
        ==> #[trigger] edge_done(index, on, sc, x, succ(g, x, t))
    &&& forall|x: int, y: int| 0 <= x < n && 0 <= y < n && index[x] is Some && !on[x] && index[y] is Some
        && !on[y] && #[trigger] sc[x] == #[trigger] sc[y] ==> reaches(g, x, y)
}

proof fn lemma_succ_range(g: CsrGraph, x: int, t: int)
    requires
        g.wf(),
        0 <= x < g.spec_n(),
        0 <= t < deg(g, x),
    ensures
        0 <= succ(g, x, t) < g.spec_n(),
{
    let n = g.spec_n() as int;
    assert(g.offsets@[x] <= g.offsets@[x + 1] <= g.offsets@[n]);
    assert(csr_list(g.offsets@, g.targets@, x)[t] == g.targets@[g.offsets@[x] + t]);
}

proof fn lemma_ok_init(g: CsrGraph, index: Seq<Option<u32>>, low: Seq<u32>, on: Seq<bool>, sc: Seq<u32>)
    requires
        forall|v: int| 0 <= v < index.len() ==> #[trigger] index[v] is None,
        index.len() == g.spec_n(),
    ensures
        tarjan_ok(g, index, low, on, Seq::empty(), sc, Seq::empty()),
{
    reveal(tarjan_ok);
}

/// Entering the root of a new DFS tree.
proof fn lemma_ok_enter_root(g: CsrGraph, index: Seq<Option<u32>>, low: Seq<u32>, on: Seq<bool>,
    sc: Seq<u32>, next: u32, r: u32)
    requires
        g.wf(),
        tarjan_ok(g, index, low, on, Seq::empty(), sc, Seq::empty()),
        0 <= r < g.spec_n(),
        index.len() == g.spec_n(),
        low.len() == g.spec_n(),
        on.len() == g.spec_n(),
        index[r as int] is None,
        forall|v: int| 0 <= v < g.spec_n() ==> !#[trigger] on[v],
    ensures
        tarjan_ok(g, index.update(r as int, Some(next)), low.update(r as int, next), on.update(r as int, true),
            seq![r], sc, seq![(r, 0usize)]),
{
    reveal(tarjan_ok);
    let n = g.spec_n() as int;
    let index2 = index.update(r as int, Some(next));
    let low2 = low.update(r as int, next);
    let on2 = on.update(r as int, true);
    let st2 = seq![r];
    let work2 = seq![(r, 0usize)];
    lemma_reaches_refl(g, r as int);
    assert(low_witness(g, index2, low2, st2, r as int)) by {
        assert(reaches(g, r as int, st2[0] as int));
    }
    assert forall|x: int, t: int| 0 <= x < n && index2[x] is Some && on2[x] && !on_path(work2, x) && 0 <= t < deg(g, x)
        implies #[trigger] edge_seen(index2, low2, on2, x, succ(g, x, t)) by {
        assert(x == r);
        assert(work2[0].0 as int == x);
    }
    assert forall|x: int, t: int| 0 <= x < n && index2[x] is Some && !on2[x] && 0 <= t < deg(g, x)
        implies #[trigger] edge_done(index2, on2, sc, x, succ(g, x, t)) by {
        assert(x != r);
        assert(edge_done(index, on, sc, x, succ(g, x, t)));
        lemma_succ_range(g, x, t);
        assert(succ(g, x, t) != r);
    }
    assert forall|x: int, y: int| 0 <= x < n && 0 <= y < n && index2[x] is Some && !on2[x] && index2[y] is Some
        && !on2[y] && #[trigger] sc[x] == #[trigger] sc[y] implies reaches(g, x, y) by {
        assert(x != r && y != r);
    }
}

proof fn lemma_succ_edge(g: CsrGraph, x: int, t: int)
    requires
        g.wf(),
        0 <= x < g.spec_n(),
        0 <= t < deg(g, x),
    ensures
        g.edge(x, succ(g, x, t)),
{
    reveal(CsrGraph::edge);
    let n = g.spec_n() as int;
    assert(g.offsets@[x] <= g.offsets@[x + 1] <= g.offsets@[n]);
    assert(csr_list(g.offsets@, g.targets@, x)[t] == g.targets@[g.offsets@[x] + t]);
}

/// Entering `w`, the target of the next edge of the top frame.
proof fn lemma_ok_enter_child(g: CsrGraph, index: Seq<Option<u32>>, low: Seq<u32>, on: Seq<bool>, st: Seq<u32>,
    sc: Seq<u32>, next: u32, cnt: u32, base: u32, work: Seq<(u32, usize)>, root: u32, node: u32, nxt: usize, w: u32)
    requires
        g.wf(),
        tarjan_inv(g, index, low, on, st, sc, next, cnt, base),
        frames_inv(g, index, on, st, work, root),
        tarjan_ok(g, index, low, on, st, sc, work),
        work.len() > 0,
        work.last() == (node, nxt),
        nxt < deg(g, node as int),
        w as int == succ(g, node as int, nxt as int),
        index[w as int] is None,
    ensures
        tarjan_ok(g, index.update(w as int, Some(next)), low.update(w as int, next), on.update(w as int, true),
            st.push(w), sc, work.drop_last().push((node, (nxt + 1) as usize)).push((w, 0usize))),
{
    reveal(tarjan_ok);
    let n = g.spec_n() as int;
    let index2 = index.update(w as int, Some(next));
    let low2 = low.update(w as int, next);
    let on2 = on.update(w as int, true);
    let st2 = st.push(w);
    let top = work.len() - 1;
    let work2 = work.drop_last().push((node, (nxt + 1) as usize)).push((w, 0usize));
    let last = work2.len() - 1;
    assert(work[top] == (node, nxt));
    assert(node < n && index[node as int] is Some && on[node as int]);
    lemma_succ_range(g, node as int, nxt as int);
    lemma_succ_edge(g, node as int, nxt as int);
    lemma_reaches_refl(g, w as int);
    assert(work2[last] == (w, 0usize));
    assert(work2[top] == (node, (nxt + 1) as usize));
    assert forall|i: int| 0 <= i < top implies work2[i] == #[trigger] work[i] by {}
    // Old nodes keep their index; `w` comes after all of them.
    assert forall|v: int| 0 <= v < n && #[trigger] index[v] is Some implies v != w && index2[v] == index[v]
        && idx_of(index2, v) < next by {}
    assert(st.contains(node));
    let kn = choose|kk: int| 0 <= kk < st.len() && st[kk] == node;
    // R1
    assert forall|i: int, k: int| 0 <= i < work2.len() && 0 <= k < st2.len()
        && idx_of(index2, work2[i].0 as int) <= idx_of(index2, st2[k] as int)
        implies #[trigger] reaches(g, work2[i].0 as int, st2[k] as int) by {
        if k == st.len() {
            if i < last {
                assert(work2[i].0 == work[i].0);
                if i < top {
                    assert(idx_of(index, work[i].0 as int) < idx_of(index, work[top].0 as int));
                }
                assert(idx_of(index, work[i].0 as int) <= idx_of(index, st[kn] as int));
                assert(reaches(g, work[i].0 as int, st[kn] as int));
                lemma_reaches_step(g, work[i].0 as int, node as int, w as int);
            }
        } else {
            assert(st2[k] == st[k]);
            assert(index[st[k] as int] is Some);
            if i == last {
                assert(false);
            }
            assert(work2[i].0 == work[i].0);
            assert(index[work[i].0 as int] is Some);
        }
    }
    // R2 and L2
    assert forall|i: int, k: int| 0 <= k < st2.len() && #[trigger] deepest(index2, work2, i, st2[k] as int)
        implies reaches(g, st2[k] as int, work2[i].0 as int) && low2[work2[i].0 as int] <= low2[st2[k] as int] by {
        if k == st.len() {
            if i < last {
                assert(work2[i].0 == work[i].0);
                assert(index[work[i].0 as int] is Some);
                assert(idx_of(index2, work2[i + 1].0 as int) <= idx_of(index2, w as int)) by {
                    if i + 1 < last {
                        assert(work2[i + 1].0 == work[i + 1].0);
                        assert(index[work[i + 1].0 as int] is Some);
                    }
                }
                assert(false);
            }
        } else {
            assert(st2[k] == st[k]);
            assert(index[st[k] as int] is Some);
            let x = st[k] as int;
            if i == last {
                assert(false);
            }
            assert(work2[i].0 == work[i].0);
            assert(index[work[i].0 as int] is Some);
            if i + 1 < top {
                assert(work2[i + 1].0 == work[i + 1].0);
                assert(index[work[i + 1].0 as int] is Some);
            }
            if i + 1 == top {
                assert(work2[i + 1].0 == work[i + 1].0);
                assert(work[i + 1].0 == node);
            }
            assert(deepest(index, work, i, st[k] as int));
        }
    }
    // R3
    assert forall|k: int| 0 <= k < st2.len() implies #[trigger] low_witness(g, index2, low2, st2, st2[k] as int) by {
        if k == st.len() {
            assert(reaches(g, w as int, st2[k] as int));
        } else {
            assert(st2[k] == st[k]);
            assert(low_witness(g, index, low, st, st[k] as int));
            let j = choose|j: int| 0 <= j < st.len() && idx_of(index, st[j] as int) == low[st[k] as int]
                && #[trigger] reaches(g, st[k] as int, st[j] as int);
            assert(st2[j] == st[j]);
            assert(index[st[j] as int] is Some);
            assert(index[st[k] as int] is Some);
            assert(reaches(g, st2[k] as int, st2[j] as int));
        }
    }
    // L1 on the frames
    assert forall|i: int, t: int| 0 <= i < work2.len() && 0 <= t < work2[i].1
        && !to_child(work2, i, t, succ(g, work2[i].0 as int, t))
        implies #[trigger] edge_seen(index2, low2, on2, work2[i].0 as int, succ(g, work2[i].0 as int, t)) by {
        let x = work2[i].0 as int;
        let y = succ(g, x, t);
        assert(i != last);
        if i == top {
            if t == nxt {
                assert(to_child(work2, i, t, y));
            }
            assert(!to_child(work, i, t, y));
        } else {
            assert(work2[i] == work[i]);
            if i + 1 < top {
                assert(work2[i + 1] == work[i + 1]);
            } else {
                assert(work2[i + 1].0 == work[i + 1].0);
            }
            assert(to_child(work2, i, t, y) == to_child(work, i, t, y));
        }
        assert(edge_seen(index, low, on, x, y));
        assert(x < n && index[x] is Some);
        assert(x != w);
        lemma_succ_range(g, x, t);
    }
    // L1 on finished stack nodes
    assert forall|x: int, t: int| 0 <= x < n && index2[x] is Some && on2[x] && !on_path(work2, x) && 0 <= t < deg(g, x)
        implies #[trigger] edge_seen(index2, low2, on2, x, succ(g, x, t)) by {
        if x == w {
            assert(work2[last].0 as int == x);
        }
        assert(!on_path(work, x)) by {
            if on_path(work, x) {
                let i = choose|i: int| 0 <= i < work.len() && work[i].0 as int == x;
                if i == top {
                    assert(work2[top].0 as int == x);
                } else {
                    assert(work2[i] == work[i]);
                }
            }
        }
        assert(edge_seen(index, low, on, x, succ(g, x, t)));
        lemma_succ_range(g, x, t);
    }
    // Finished components
    assert forall|x: int, t: int| 0 <= x < n && index2[x] is Some && !on2[x] && 0 <= t < deg(g, x)
        implies #[trigger] edge_done(index2, on2, sc, x, succ(g, x, t)) by {
        assert(x != w);
        assert(edge_done(index, on, sc, x, succ(g, x, t)));
        lemma_succ_range(g, x, t);
    }
    assert forall|x: int, y: int| 0 <= x < n && 0 <= y < n && index2[x] is Some && !on2[x] && index2[y] is Some
        && !on2[y] && #[trigger] sc[x] == #[trigger] sc[y] implies reaches(g, x, y) by {
        assert(x != w && y != w);
    }
}

/// The next edge of the top frame leads to an entered node `w`; if `w` is
/// on the stack, the frame's lowlink drops to `w`'s index.
proof fn lemma_ok_seen(g: CsrGraph, index: Seq<Option<u32>>, low: Seq<u32>, on: Seq<bool>, st: Seq<u32>,
    sc: Seq<u32>, next: u32, cnt: u32, base: u32, work: Seq<(u32, usize)>, root: u32, node: u32, nxt: usize, w: u32,
    low2: Seq<u32>)
    requires
        g.wf(),
        tarjan_inv(g, index, low, on, st, sc, next, cnt, base),
        frames_inv(g, index, on, st, work, root),
        tarjan_ok(g, index, low, on, st, sc, work),
        work.len() > 0,
        work.last() == (node, nxt),
        nxt < deg(g, node as int),
        w as int == succ(g, node as int, nxt as int),
        index[w as int] is Some,
        low2 == (if on[w as int] {
            low.update(node as int, if idx_of(index, w as int) < low[node as int] { idx_of(index, w as int) as u32 } else { low[node as int] })
        } else {
            low
        }),
    ensures
        tarjan_ok(g, index, low2, on, st, sc, work.drop_last().push((node, (nxt + 1) as usize))),
{
    reveal(tarjan_ok);
    let n = g.spec_n() as int;
    let top = work.len() - 1;
    let work2 = work.drop_last().push((node, (nxt + 1) as usize));
    assert(work[top] == (node, nxt));
    assert(node < n && index[node as int] is Some && on[node as int]);
    lemma_succ_range(g, node as int, nxt as int);
    lemma_succ_edge(g, node as int, nxt as int);
    assert(work2[top] == (node, (nxt + 1) as usize));
    assert forall|i: int| 0 <= i < top implies work2[i] == #[trigger] work[i] by {}
    assert forall|i: int| 0 <= i < work2.len() implies (#[trigger] work2[i]).0 == work[i].0 by {}
    assert forall|i: int| 0 <= i < top implies (#[trigger] work[i]).0 != node by {
        assert(idx_of(index, work[i].0 as int) < idx_of(index, work[top].0 as int));
    }
    assert forall|i: int, x: int| #[trigger] deepest(index, work2, i, x) == deepest(index, work, i, x) by {
        if 0 <= i < work2.len() && i + 1 < work2.len() {
            assert(work2[i + 1].0 == work[i + 1].0);
        }
    }
    // R2 and L2
    assert forall|i: int, k: int| 0 <= k < st.len() && #[trigger] deepest(index, work2, i, st[k] as int)
        implies reaches(g, st[k] as int, work2[i].0 as int) && low2[work2[i].0 as int] <= low2[st[k] as int] by {
        assert(deepest(index, work, i, st[k] as int));
        if st[k] == node && i < top {
            assert(idx_of(index, work[i + 1].0 as int) <= idx_of(index, work[top].0 as int)) by {
                if i + 1 < top {
                    assert(idx_of(index, work[i + 1].0 as int) < idx_of(index, work[top].0 as int));
                }
            }
            assert(false);
        }
    }
    // R3
    assert forall|k: int| 0 <= k < st.len() implies #[trigger] low_witness(g, index, low2, st, st[k] as int) by {
        assert(low_witness(g, index, low, st, st[k] as int));
        if st[k] == node && on[w as int] && idx_of(index, w as int) < low[node as int] {
            assert(st.contains(w));
            let j = choose|j: int| 0 <= j < st.len() && st[j] == w;
            lemma_reaches_refl(g, node as int);
            lemma_reaches_step(g, node as int, node as int, w as int);
            assert(reaches(g, st[k] as int, st[j] as int));
        }
    }
    // L1 on the frames
    assert forall|i: int, t: int| 0 <= i < work2.len() && 0 <= t < work2[i].1
        && !to_child(work2, i, t, succ(g, work2[i].0 as int, t))
        implies #[trigger] edge_seen(index, low2, on, work2[i].0 as int, succ(g, work2[i].0 as int, t)) by {
        let x = work2[i].0 as int;
        let y = succ(g, x, t);
        if i == top {
            if t < nxt {
                assert(!to_child(work, i, t, y));
                assert(edge_seen(index, low, on, x, y));
            }
        } else {
            assert(work2[i] == work[i]);
            assert(work2[i + 1].0 == work[i + 1].0);
            assert(to_child(work2, i, t, y) == to_child(work, i, t, y));
            assert(edge_seen(index, low, on, x, y));
            assert(x != node);
        }
    }
    // L1 on finished stack nodes
    assert forall|x: int, t: int| 0 <= x < n && index[x] is Some && on[x] && !on_path(work2, x) && 0 <= t < deg(g, x)
        implies #[trigger] edge_seen(index, low2, on, x, succ(g, x, t)) by {
        assert(x != node) by {
            if x == node {
                assert(work2[top].0 as int == x);
            }
        }
        assert(!on_path(work, x)) by {
            if on_path(work, x) {
                let i = choose|i: int| 0 <= i < work.len() && work[i].0 as int == x;
                assert(work2[i].0 == work[i].0);
            }
        }
        assert(edge_seen(index, low, on, x, succ(g, x, t)));
    }
}

/// Every node entered no earlier than the root frame has a deepest frame.
proof fn lemma_deepest_exists(index: Seq<Option<u32>>, work: Seq<(u32, usize)>, x: int) -> (i: int)
    requires
        work.len() > 0,
        idx_of(index, work[0].0 as int) <= idx_of(index, x),
    ensures
        deepest(index, work, i, x),
    decreases work.len(),
{
    let last = work.len() - 1;
    if idx_of(index, work[last].0 as int) <= idx_of(index, x) {
        last
    } else {
        let w = work.drop_last();
        assert(w[0] == work[0]);
        let i = lemma_deepest_exists(index, w, x);
        assert(w[i] == work[i]);
        if i + 1 < w.len() {
            assert(w[i + 1] == work[i + 1]);
        }
        i
    }
}

/// The top frame is done and its lowlink is below its own index: the frame
/// goes, and its parent's lowlink drops to the child's.
proof fn lemma_ok_finish_keep(g: CsrGraph, index: Seq<Option<u32>>, low: Seq<u32>, on: Seq<bool>, st: Seq<u32>,
    sc: Seq<u32>, next: u32, cnt: u32, base: u32, work: Seq<(u32, usize)>, root: u32, node: u32, low2: Seq<u32>)
    requires
        g.wf(),
        tarjan_inv(g, index, low, on, st, sc, next, cnt, base),
        frames_inv(g, index, on, st, work, root),
        tarjan_ok(g, index, low, on, st, sc, work),
        idx_of(index, root as int) == base,
        work.len() > 0,
        work.last().0 == node,
        work.last().1 == deg(g, node as int),
        low[node as int] != idx_of(index, node as int),
        work.len() > 1 ==> low2 == low.update(work[work.len() - 2].0 as int,
            if low[node as int] < low[work[work.len() - 2].0 as int] { low[node as int] } else { low[work[work.len() - 2].0 as int] }),
    ensures
        work.len() > 1,
        tarjan_ok(g, index, low2, on, st, sc, work.drop_last()),
{
    reveal(tarjan_ok);
    let n = g.spec_n() as int;
    let top = work.len() - 1;
    let rest = work.drop_last();
    assert(work[top].0 == node);
    assert(node < n && index[node as int] is Some && on[node as int]);
    assert(st.contains(node));
    let kn = choose|kk: int| 0 <= kk < st.len() && st[kk] == node;
    if top == 0 {
        assert(node == root);
        assert(idx_of(index, st[kn] as int) >= base);
        assert(false);
    }
    let pt = top - 1;
    let p = work[pt].0;
    assert(rest[pt].0 == p);
    assert(p < n && index[p as int] is Some && on[p as int]);
    assert(idx_of(index, p as int) < idx_of(index, node as int));
    assert(st.contains(p));
    let kp = choose|kk: int| 0 <= kk < st.len() && st[kk] == p;
    assert forall|i: int| 0 <= i < rest.len() implies #[trigger] rest[i] == work[i] by {}
    assert forall|i: int| 0 <= i < pt implies (#[trigger] work[i]).0 != p by {
        assert(idx_of(index, work[i].0 as int) < idx_of(index, work[pt].0 as int));
    }
    assert(low[node as int] < idx_of(index, node as int));
    // `node` reaches `p` through its lowlink witness.
    assert(low_witness(g, index, low, st, node as int));
    let ju = choose|j: int| 0 <= j < st.len() && idx_of(index, st[j] as int) == low[node as int]
        && #[trigger] reaches(g, node as int, st[j] as int);
    let u = st[ju] as int;
    assert(idx_of(index, work[0].0 as int) <= idx_of(index, u));
    let iu = lemma_deepest_exists(index, work, u);
    assert(iu < top) by {
        if iu == top {
            assert(idx_of(index, work[top].0 as int) <= idx_of(index, u));
        }
    }
    assert(reaches(g, u, work[iu].0 as int));
    assert(idx_of(index, work[iu].0 as int) <= idx_of(index, p as int)) by {
        if iu < pt {
            assert(idx_of(index, work[iu].0 as int) < idx_of(index, work[pt].0 as int));
        }
    }
    assert(reaches(g, work[iu].0 as int, st[kp] as int));
    lemma_reaches_trans(g, node as int, u, work[iu].0 as int);
    lemma_reaches_trans(g, node as int, work[iu].0 as int, p as int);
    assert(reaches(g, p as int, st[kn] as int));
    // R1
    assert forall|i: int, k: int| 0 <= i < rest.len() && 0 <= k < st.len()
        && idx_of(index, rest[i].0 as int) <= idx_of(index, st[k] as int)
        implies #[trigger] reaches(g, rest[i].0 as int, st[k] as int) by {
        assert(rest[i] == work[i]);
    }
    // R2 and L2
    assert forall|i: int, k: int| 0 <= k < st.len() && #[trigger] deepest(index, rest, i, st[k] as int)
        implies reaches(g, st[k] as int, rest[i].0 as int) && low2[rest[i].0 as int] <= low2[st[k] as int] by {
        let x = st[k] as int;
        assert(rest[i] == work[i]);
        if i < pt {
            assert(rest[i + 1] == work[i + 1]);
            assert(deepest(index, work, i, x));
            assert(x != p as int) by {
                if x == p as int {
                    assert(idx_of(index, work[i + 1].0 as int) <= idx_of(index, work[pt].0 as int)) by {
                        if i + 1 < pt {
                            assert(idx_of(index, work[i + 1].0 as int) < idx_of(index, work[pt].0 as int));
                        }
                    }
                }
            }
        } else {
            if idx_of(index, x) < idx_of(index, node as int) {
                assert(deepest(index, work, pt, x));
            } else {
                assert(deepest(index, work, top, x));
                assert(reaches(g, x, node as int));
                lemma_reaches_trans(g, x, node as int, p as int);
                assert(x != p as int);
            }
        }
    }
    // R3
    assert forall|k: int| 0 <= k < st.len() implies #[trigger] low_witness(g, index, low2, st, st[k] as int) by {
        let x = st[k] as int;
        assert(low_witness(g, index, low, st, x));
        if x == p as int && low[node as int] < low[p as int] {
            assert(reaches(g, node as int, st[ju] as int));
            lemma_reaches_trans(g, p as int, node as int, st[ju] as int);
            assert(reaches(g, x, st[ju] as int));
        }
    }
    // L1 on the frames
    assert forall|i: int, t: int| 0 <= i < rest.len() && 0 <= t < rest[i].1
        && !to_child(rest, i, t, succ(g, rest[i].0 as int, t))
        implies #[trigger] edge_seen(index, low2, on, rest[i].0 as int, succ(g, rest[i].0 as int, t)) by {
        let x = rest[i].0 as int;
        let y = succ(g, x, t);
        assert(rest[i] == work[i]);
        if i < pt {
            assert(rest[i + 1] == work[i + 1]);
            assert(!to_child(work, i, t, y));
            assert(edge_seen(index, low, on, x, y));
        } else {
            if to_child(work, i, t, y) {
                assert(y == node as int);
            } else {
                assert(edge_seen(index, low, on, x, y));
            }
        }
    }
    // L1 on finished stack nodes
    assert forall|x: int, t: int| 0 <= x < n && index[x] is Some && on[x] && !on_path(rest, x) && 0 <= t < deg(g, x)
        implies #[trigger] edge_seen(index, low2, on, x, succ(g, x, t)) by {
        let y = succ(g, x, t);
        assert(x != p as int) by {
            if x == p as int {
                assert(rest[pt].0 as int == x);
            }
        }
        if x == node as int {
            assert(!to_child(work, top, t, y));
            assert(edge_seen(index, low, on, work[top].0 as int, succ(g, work[top].0 as int, t)));
        } else {
            assert(!on_path(work, x)) by {
                if on_path(work, x) {
                    let i = choose|i: int| 0 <= i < work.len() && work[i].0 as int == x;
                    assert(i != top);
                    assert(rest[i].0 == work[i].0);
                }
            }
            assert(edge_seen(index, low, on, x, y));
        }
    }
}

/// The top frame is done and roots a component: the component leaves the
/// stack with number `cnt`.
proof fn lemma_ok_finish_pop(g: CsrGraph, index: Seq<Option<u32>>, low: Seq<u32>, on: Seq<bool>, st: Seq<u32>,
    sc: Seq<u32>, next: u32, cnt: u32, base: u32, work: Seq<(u32, usize)>, root: u32, node: u32, k0: int,
    on2: Seq<bool>, sc2: Seq<u32>)
    requires
        g.wf(),
        tarjan_inv(g, index, low, on, st, sc, next, cnt, base),
        frames_inv(g, index, on, st, work, root),
        tarjan_ok(g, index, low, on, st, sc, work),
        work.len() > 0,
        work.last().0 == node,
        work.last().1 == deg(g, node as int),
        low[node as int] == idx_of(index, node as int),
        0 <= k0 < st.len(),
        st[k0] == node,
        on2.len() == g.spec_n(),
        sc2.len() == g.spec_n(),
        forall|v: int| 0 <= v < g.spec_n() ==> (#[trigger] on2[v] <==> st.subrange(0, k0).contains(v as u32)),
        forall|j: int| k0 <= j < st.len() ==> #[trigger] sc2[st[j] as int] == cnt,
        forall|v: int| 0 <= v < g.spec_n() && !on[v] ==> #[trigger] sc2[v] == sc[v],
    ensures
        tarjan_ok(g, index, low, on2, st.subrange(0, k0), sc2, work.drop_last()),
{
    reveal(tarjan_ok);
    let n = g.spec_n() as int;
    let top = work.len() - 1;
    let rest = work.drop_last();
    let st2 = st.subrange(0, k0);
    assert(work[top].0 == node);
    assert(node < n && index[node as int] is Some && on[node as int]);
    assert forall|i: int| 0 <= i < rest.len() implies #[trigger] rest[i] == work[i] by {}
    assert forall|k: int| 0 <= k < st2.len() implies #[trigger] st2[k] == st[k] by {}
    // Popped nodes are those at or above `node` on the stack.
    assert forall|v: int| 0 <= v < n && on[v] && idx_of(index, node as int) <= idx_of(index, v)
        implies !on2[v] && #[trigger] sc2[v] == cnt by {
        assert(st.contains(v as u32));
        let j = choose|j: int| 0 <= j < st.len() && st[j] == v as u32;
        if j < k0 {
            assert(idx_of(index, st[j] as int) < idx_of(index, st[k0] as int));
        }
        assert(sc2[st[j] as int] == cnt);
        assert(!st2.contains(v as u32)) by {
            if st2.contains(v as u32) {
                let j2 = choose|j2: int| 0 <= j2 < st2.len() && st2[j2] == v as u32;
                if j2 != j {
                    if j2 < j {
                        assert(idx_of(index, st[j2] as int) < idx_of(index, st[j] as int));
                    } else {
                        assert(idx_of(index, st[j] as int) < idx_of(index, st[j2] as int));
                    }
                }
            }
        }
    }
    assert forall|v: int| 0 <= v < n && on2[v] implies on[v] && idx_of(index, v) < idx_of(index, node as int) by {
        let j = choose|j: int| 0 <= j < st2.len() && st2[j] == v as u32;
        assert(st[j] == v as u32);
        assert(st.contains(v as u32));
        assert(idx_of(index, st[j] as int) < idx_of(index, st[k0] as int));
    }
    assert forall|v: int| 0 <= v < n && on[v] && !on2[v] implies idx_of(index, node as int) <= #[trigger] idx_of(index, v) by {
        assert(st.contains(v as u32));
        let j = choose|j: int| 0 <= j < st.len() && st[j] == v as u32;
        if j < k0 {
            assert(st2[j] == v as u32);
            assert(st2.contains(v as u32));
        } else if j > k0 {
            assert(idx_of(index, st[k0] as int) < idx_of(index, st[j] as int));
        }
    }
    // R1
    assert forall|i: int, k: int| 0 <= i < rest.len() && 0 <= k < st2.len()
        && idx_of(index, rest[i].0 as int) <= idx_of(index, st2[k] as int)
        implies #[trigger] reaches(g, rest[i].0 as int, st2[k] as int) by {
        assert(rest[i] == work[i]);
        assert(st2[k] == st[k]);
    }
    // R2 and L2
    assert forall|i: int, k: int| 0 <= k < st2.len() && #[trigger] deepest(index, rest, i, st2[k] as int)
        implies reaches(g, st2[k] as int, rest[i].0 as int) && low[rest[i].0 as int] <= low[st2[k] as int] by {
        assert(st2[k] == st[k]);
        assert(rest[i] == work[i]);
        assert(idx_of(index, st[k] as int) < idx_of(index, st[k0] as int));
        if i + 1 < rest.len() {
            assert(rest[i + 1] == work[i + 1]);
        }
        assert(deepest(index, work, i, st[k] as int));
    }
    // R3
    assert forall|k: int| 0 <= k < st2.len() implies #[trigger] low_witness(g, index, low, st2, st2[k] as int) by {
        assert(st2[k] == st[k]);
        assert(low_witness(g, index, low, st, st[k] as int));
        let j = choose|j: int| 0 <= j < st.len() && idx_of(index, st[j] as int) == low[st[k] as int]
            && #[trigger] reaches(g, st[k] as int, st[j] as int);
        assert(idx_of(index, st[k] as int) < idx_of(index, st[k0] as int));
        assert(index[st[k] as int] is Some);
        assert(j < k0) by {
            if j >= k0 {
                if j > k0 {
                    assert(idx_of(index, st[k0] as int) < idx_of(index, st[j] as int));
                }
            }
        }
        assert(st2[j] == st[j]);
        assert(reaches(g, st2[k] as int, st2[j] as int));
    }
    // L1 on the frames
    assert forall|i: int, t: int| 0 <= i < rest.len() && 0 <= t < rest[i].1
        && !to_child(rest, i, t, succ(g, rest[i].0 as int, t))
        implies #[trigger] edge_seen(index, low, on2, rest[i].0 as int, succ(g, rest[i].0 as int, t)) by {
        let x = rest[i].0 as int;
        let y = succ(g, x, t);
        assert(rest[i] == work[i]);
        if i + 1 < rest.len() {
            assert(rest[i + 1] == work[i + 1]);
        }
        if to_child(work, i, t, y) {
            assert(y == node as int);
            assert(index[node as int] is Some);
        } else {
            assert(edge_seen(index, low, on, x, y));
            lemma_succ_range(g, x, t);
        }
    }
    // L1 on finished stack nodes
    assert forall|x: int, t: int| 0 <= x < n && index[x] is Some && on2[x] && !on_path(rest, x) && 0 <= t < deg(g, x)
        implies #[trigger] edge_seen(index, low, on2, x, succ(g, x, t)) by {
        assert(on[x]);
        assert(x != node as int);
        assert(!on_path(work, x)) by {
            if on_path(work, x) {
                let i = choose|i: int| 0 <= i < work.len() && work[i].0 as int == x;
                assert(i != top);
                assert(rest[i].0 == work[i].0);
            }
        }
        assert(edge_seen(index, low, on, x, succ(g, x, t)));
        lemma_succ_range(g, x, t);
    }
    // Finished components
    assert forall|x: int, t: int| 0 <= x < n && index[x] is Some && !on2[x] && 0 <= t < deg(g, x)
        implies #[trigger] edge_done(index, on2, sc2, x, succ(g, x, t)) by {
        let y = succ(g, x, t);
        lemma_succ_range(g, x, t);
        if on[x] {
            assert(idx_of(index, node as int) <= idx_of(index, x));
            assert(sc2[x] == cnt);
            if x == node as int {
                assert(!to_child(work, top, t, y));
                assert(edge_seen(index, low, on, work[top].0 as int, succ(g, work[top].0 as int, t)));
            } else {
                assert(!on_path(work, x)) by {
                    if on_path(work, x) {
                        let i = choose|i: int| 0 <= i < work.len() && work[i].0 as int == x;
                        if i < top {
                            assert(idx_of(index, work[i].0 as int) < idx_of(index, work[top].0 as int));
                        }
                    }
                }
                assert(edge_seen(index, low, on, x, y));
                assert(st.contains(x as u32));
                let kx = choose|kk: int| 0 <= kk < st.len() && st[kk] == x as u32;
                assert(deepest(index, work, top, st[kx] as int));
                assert(low[node as int] <= low[x]);
            }
            if on[y] {
                assert(idx_of(index, node as int) <= idx_of(index, y));
            } else {
                assert(index[y] is Some);
                assert(sc[y] < cnt);
            }
        } else {
            assert(edge_done(index, on, sc, x, y));
            assert(!on2[y]) by {
                if on2[y] {
                    assert(on[y]);
                }
            }
        }
    }
    assert forall|x: int, y: int| 0 <= x < n && 0 <= y < n && index[x] is Some && !on2[x] && index[y] is Some
        && !on2[y] && #[trigger] sc2[x] == #[trigger] sc2[y] implies reaches(g, x, y) by {
        if on[x] && on[y] {
            assert(st.contains(x as u32));
            let kx = choose|kk: int| 0 <= kk < st.len() && st[kk] == x as u32;
            assert(st.contains(y as u32));
            let ky = choose|kk: int| 0 <= kk < st.len() && st[kk] == y as u32;
            assert(idx_of(index, node as int) <= idx_of(index, x));
            assert(idx_of(index, node as int) <= idx_of(index, y));
            assert(deepest(index, work, top, st[kx] as int));
            assert(reaches(g, x, node as int));
            assert(reaches(g, work[top].0 as int, st[ky] as int));
            lemma_reaches_trans(g, x, node as int, y);
        } else if on[x] {
            assert(sc2[x] == cnt);
            assert(sc2[y] == sc[y]);
            assert(sc[y] < cnt);
        } else if on[y] {
            assert(sc2[y] == cnt);
            assert(sc2[x] == sc[x]);
            assert(sc[x] < cnt);
        } else {
            assert(sc2[x] == sc[x] && sc2[y] == sc[y]);
        }
    }
}

/// An edge of `g` is an examined neighbour.
proof fn lemma_edge_succ(g: CsrGraph, u: int, v: int) -> (t: int)
    requires
        g.wf(),
        g.edge(u, v),
    ensures
        0 <= t < deg(g, u),
        succ(g, u, t) == v,
        0 <= u < g.spec_n(),
{
    reveal(CsrGraph::edge);
    let n = g.spec_n() as int;
    let p = choose|p: int| g.offsets@[u] <= p < g.offsets@[u + 1] && #[trigger] g.targets@[p] == v;
    assert(g.offsets@[u] <= g.offsets@[u + 1] <= g.offsets@[n]);
    let t = p - g.offsets@[u];
    assert(csr_list(g.offsets@, g.targets@, u)[t] == g.targets@[p]);
    t
}

/// Along a walk, component numbers never grow.
proof fn lemma_reach_mono(g: CsrGraph, sc: Seq<u32>, p: Seq<int>, k: int)
    requires
        g.wf(),
        forall|u: int, v: int| #[trigger] g.edge(u, v) ==> sc[v] <= sc[u],
        crate::index::graph::is_path(g, p),
        0 <= k < p.len(),
    ensures
        sc[p[k]] <= sc[p[0]],
    decreases k,
{
    if k > 0 {
        lemma_reach_mono(g, sc, p, k - 1);
        let k0 = k - 1;
        assert(g.edge(p[k0], p[k0 + 1]));
    }
}

/// When every node has been entered and the stack is empty, edges never
/// lead to a higher component number.
proof fn lemma_ok_edges(g: CsrGraph, index: Seq<Option<u32>>, low: Seq<u32>, on: Seq<bool>, sc: Seq<u32>)
    requires
        g.wf(),
        tarjan_ok(g, index, low, on, Seq::empty(), sc, Seq::empty()),
        index.len() == g.spec_n(),
        on.len() == g.spec_n(),
        sc.len() == g.spec_n(),
        forall|v: int| 0 <= v < g.spec_n() ==> #[trigger] index[v] is Some && !on[v],
    ensures
        forall|u: int, v: int| #[trigger] g.edge(u, v) ==> sc[v] <= sc[u],
{
    reveal(tarjan_ok);
    assert forall|u: int, v: int| #[trigger] g.edge(u, v) implies sc[v] <= sc[u] by {
        let t = lemma_edge_succ(g, u, v);
        assert(edge_done(index, on, sc, u, succ(g, u, t)));
    }
}

/// ... and two nodes share a number exactly when each reaches the other.
proof fn lemma_ok_pair(g: CsrGraph, index: Seq<Option<u32>>, low: Seq<u32>, on: Seq<bool>, sc: Seq<u32>, u: int, v: int)
    requires
        g.wf(),
        tarjan_ok(g, index, low, on, Seq::empty(), sc, Seq::empty()),
        index.len() == g.spec_n(),
        on.len() == g.spec_n(),
        sc.len() == g.spec_n(),
        forall|x: int| 0 <= x < g.spec_n() ==> #[trigger] index[x] is Some && !on[x],
        0 <= u < g.spec_n(),
        0 <= v < g.spec_n(),
    ensures
        sc[u] == sc[v] <==> reaches(g, u, v) && reaches(g, v, u),
{
    lemma_ok_edges(g, index, low, on, sc);
    if sc[u] == sc[v] {
        reveal(tarjan_ok);
        assert(index[u] is Some && !on[u] && index[v] is Some && !on[v]);
        assert(reaches(g, u, v));
        assert(reaches(g, v, u));
    }
    if reaches(g, u, v) && reaches(g, v, u) {
        let p = choose|p: Seq<int>| #[trigger] crate::index::graph::is_path(g, p) && p[0] == u && p.last() == v;
        lemma_reach_mono(g, sc, p, p.len() - 1);
        let q = choose|q: Seq<int>| #[trigger] crate::index::graph::is_path(g, q) && q[0] == v && q.last() == u;
        lemma_reach_mono(g, sc, q, q.len() - 1);
    }
}

/// Result of condensing a graph: per-node SCC id and the DAG over SCCs.
#[derive(Clone, Debug)]
pub struct Condensation {
    /// `scc_of[node]` is the SCC id of `node`, in `0..scc_count`.
    pub scc_of: Vec<u32>,
    pub scc_count: u32,
    /// Condensation graph: one node per SCC, one edge per pair of distinct
    /// SCCs joined by an edge of the input graph.
    pub dag: CsrGraph,
    /// Members of each SCC, in increasing order.
    pub members: Vec<Vec<u32>>,
}

/// `a -> b` is an edge between distinct components, witnessed by an edge of
/// `g`.
pub open spec fn cross_edge(g: CsrGraph, scc: Seq<u32>, a: int, b: int) -> bool {
    a != b && exists|u: int, v: int| #[trigger] g.edge(u, v) && scc[u] == a && scc[v] == b
}

impl Condensation {
    /// `self` is the condensation of `g`: every node has a component, the
    /// components are the classes of mutual reachability, each member list
    /// holds exactly its component's nodes, and the DAG joins two components
    /// exactly where an edge of `g` does.
    pub open spec fn is_condensation_of(&self, g: CsrGraph) -> bool {
        &&& self.scc_of@.len() == g.spec_n()
        &&& forall|v: int| 0 <= v < g.spec_n() ==> #[trigger] self.scc_of@[v] < self.scc_count
        &&& self.dag.wf()
        &&& self.dag.spec_n() == self.scc_count
        &&& forall|a: int, b: int| #[trigger] self.dag.edge(a, b) <==> cross_edge(g, self.scc_of@, a, b)
        &&& self.members@.len() == self.scc_count
        &&& forall|a: int| 0 <= a < self.scc_count ==> #[trigger] self.members@[a]@.len() > 0
        &&& forall|a: int, k: int| 0 <= a < self.scc_count && 0 <= k < self.members@[a]@.len() ==>
            #[trigger] self.members@[a]@[k] < g.spec_n() && self.scc_of@[self.members@[a]@[k] as int] == a
        &&& forall|v: int| 0 <= v < g.spec_n() ==> self.members@[self.scc_of@[v] as int]@.contains(v as u32)
        &&& forall|u: int, v: int|
            #![trigger self.scc_of@[u], self.scc_of@[v]]
            #![trigger reaches(g, u, v), reaches(g, v, u)]
            0 <= u < g.spec_n() && 0 <= v < g.spec_n()
            ==> (self.scc_of@[u] == self.scc_of@[v] <==> reaches(g, u, v) && reaches(g, v, u))
    }
}

/// Condense `g` into its SCC graph.
pub fn condense(g: &CsrGraph) -> (c: Condensation)
    requires
        g.wf(),
    ensures
        c.is_condensation_of(*g),
        c.scc_of@.len() == g.spec_n(),
        c.scc_count <= g.spec_n(),
        forall|v: int| 0 <= v < g.spec_n() ==> #[trigger] c.scc_of@[v] < c.scc_count,
        c.dag.wf(),
        c.dag.spec_n() == c.scc_count,
        forall|a: int, b: int| #[trigger] c.dag.edge(a, b) <==> cross_edge(*g, c.scc_of@, a, b),
        c.members@.len() == c.scc_count,
        forall|a: int| 0 <= a < c.scc_count ==> #[trigger] c.members@[a]@.len() > 0,
        forall|a: int, k: int| 0 <= a < c.scc_count && 0 <= k < c.members@[a]@.len() ==>
            #[trigger] c.members@[a]@[k] < g.spec_n() && c.scc_of@[c.members@[a]@[k] as int] == a,
        forall|v: int| 0 <= v < g.spec_n() ==> c.members@[c.scc_of@[v] as int]@.contains(v as u32),
        forall|u: int, v: int|
            #![trigger c.scc_of@[u], c.scc_of@[v]]
            #![trigger reaches(*g, u, v), reaches(*g, v, u)]
            0 <= u < g.spec_n() && 0 <= v < g.spec_n()
            ==> (c.scc_of@[u] == c.scc_of@[v] <==> reaches(*g, u, v) && reaches(*g, v, u)),
        forall|u: int, v: int| #[trigger] g.edge(u, v) ==> c.scc_of@[v] <= c.scc_of@[u],
        forall|a: int, b: int| #[trigger] c.dag.edge(a, b) ==> b < a,
{
    let n = g.node_count();
    let (scc_of, scc_count) = tarjan_scc(g);

    let mut members: Vec<Vec<u32>> = Vec::new();
    let mut c: u32 = 0;
    while c < scc_count
        invariant
            c <= scc_count,
            members@.len() == c,
            forall|a: int| 0 <= a < c ==> #[trigger] members@[a]@.len() == 0,
        decreases scc_count - c,
    {
        members.push(Vec::new());
        c = c + 1;
    }
    let mut node: u32 = 0;
    while node < n
        invariant
            n == g.spec_n(),
            node <= n,
            scc_of@.len() == n,
            forall|v: int| 0 <= v < n ==> #[trigger] scc_of@[v] < scc_count,
            members@.len() == scc_count,
            forall|a: int, k: int| 0 <= a < scc_count && 0 <= k < members@[a]@.len() ==>
                #[trigger] members@[a]@[k] < node && scc_of@[members@[a]@[k] as int] == a,
            forall|v: int| 0 <= v < node ==> members@[scc_of@[v] as int]@.contains(v as u32),
        decreases n - node,
    {
        let a = scc_of[node as usize] as usize;
        let ghost before = members@;
        members[a].push(node);
        proof {
            assert forall|b: int, k: int| 0 <= b < scc_count && 0 <= k < members@[b]@.len() implies
                #[trigger] members@[b]@[k] < node + 1 && scc_of@[members@[b]@[k] as int] == b by {
                if b != a || k < before[b]@.len() {
                    assert(members@[b]@[k] == before[b]@[k]);
                }
            }
            assert forall|v: int| 0 <= v < node + 1 implies members@[scc_of@[v] as int]@.contains(v as u32) by {
                if v < node {
                    let b = scc_of@[v] as int;
                    let k = choose|k: int| 0 <= k < before[b]@.len() && before[b]@[k] == v as u32;
                    assert(members@[b]@[k] == v as u32);
                } else {
                    assert(members@[a as int]@[before[a as int]@.len() as int] == node);
                }
            }
        }
        node = node + 1;
    }

    // Collect inter-SCC edges.
    let mut edges: Vec<(u32, u32)> = Vec::new();
    let mut u: u32 = 0;
    proof {
        reveal(CsrGraph::edge);
    }
    while u < n
        invariant
            g.wf(),
            n == g.spec_n(),
            u <= n,
            scc_of@.len() == n,
            forall|v: int| 0 <= v < n ==> #[trigger] scc_of@[v] < scc_count,
            edges@.len() <= g.offsets@[u as int],
            forall|e: (u32, u32)| edges@.contains(e) <==> exists|x: int, y: int| 0 <= x < u
                && #[trigger] g.edge(x, y) && scc_of@[x] == e.0 && scc_of@[y] == e.1 && e.0 != e.1,
        decreases n - u,
    {
        let su = scc_of[u as usize];
        let out = g.out(u);
        let mut i: usize = 0;
        proof {
            assert(g.offsets@[u as int] <= g.offsets@[u as int + 1] <= g.offsets@[n as int]);
        }
        while i < out.len()
            invariant
                g.wf(),
                n == g.spec_n(),
                u < n,
                su == scc_of@[u as int],
                out@ == csr_list(g.offsets@, g.targets@, u as int),
                i <= out@.len(),
                scc_of@.len() == n,
                forall|v: int| 0 <= v < n ==> #[trigger] scc_of@[v] < scc_count,
                edges@.len() <= g.offsets@[u as int] + i,
                g.offsets@[u as int] <= g.offsets@[u as int + 1] <= g.offsets@[n as int],
                forall|e: (u32, u32)| edges@.contains(e) <==> (exists|x: int, y: int| 0 <= x < u
                    && #[trigger] g.edge(x, y) && scc_of@[x] == e.0 && scc_of@[y] == e.1 && e.0 != e.1)
                    || (exists|k: int| 0 <= k < i && e.0 == su && scc_of@[#[trigger] out@[k] as int] == e.1 && e.0 != e.1),
            decreases out@.len() - i,
        {
            let v = out[i];
            proof {
                assert(g.targets@[g.offsets@[u as int] + i] == v);
            }
            let sv = scc_of[v as usize];
            let ghost before = edges@;
            if su != sv {
                edges.push((su, sv));
            }
            proof {
                assert forall|e: (u32, u32)| edges@.contains(e) <==> (exists|x: int, y: int| 0 <= x < u
                    && #[trigger] g.edge(x, y) && scc_of@[x] == e.0 && scc_of@[y] == e.1 && e.0 != e.1)
                    || (exists|k: int| 0 <= k < i + 1 && e.0 == su && scc_of@[#[trigger] out@[k] as int] == e.1 && e.0 != e.1) by {
                    if su != sv {
                        if edges@.contains(e) && e != (su, sv) {
                            let j = choose|j: int| 0 <= j < edges@.len() && edges@[j] == e;
                            assert(before[j] == e);
                        }
                        if before.contains(e) {
                            let j = choose|j: int| 0 <= j < before.len() && before[j] == e;
                            assert(edges@[j] == e);
                        }
                        if e == (su, sv) {
                            assert(edges@[edges@.len() - 1] == e);
                        }
                    }
                    if exists|k: int| 0 <= k < i + 1 && e.0 == su && scc_of@[#[trigger] out@[k] as int] == e.1 && e.0 != e.1 {
                        let k = choose|k: int| 0 <= k < i + 1 && e.0 == su && scc_of@[#[trigger] out@[k] as int] == e.1 && e.0 != e.1;
                        if k == i {
                            assert(e == (su, sv));
                            assert(edges@[edges@.len() - 1] == e);
                        }
                    }
                }
            }
            i = i + 1;
        }
        proof {
            reveal(CsrGraph::edge);
            assert forall|e: (u32, u32)| edges@.contains(e) <==> exists|x: int, y: int| 0 <= x < u + 1
                && #[trigger] g.edge(x, y) && scc_of@[x] == e.0 && scc_of@[y] == e.1 && e.0 != e.1 by {
                if exists|k: int| 0 <= k < out@.len() && e.0 == su && scc_of@[#[trigger] out@[k] as int] == e.1 && e.0 != e.1 {
                    let k = choose|k: int| 0 <= k < out@.len() && e.0 == su && scc_of@[#[trigger] out@[k] as int] == e.1 && e.0 != e.1;
                    let y = out@[k] as int;
                    assert(g.targets@[g.offsets@[u as int] + k] == y);
                    assert(g.edge(u as int, y));
                }
                if exists|x: int, y: int| 0 <= x < u + 1 && #[trigger] g.edge(x, y) && scc_of@[x] == e.0 && scc_of@[y] == e.1 && e.0 != e.1 {
                    let (x, y) = choose|x: int, y: int| 0 <= x < u + 1 && #[trigger] g.edge(x, y) && scc_of@[x] == e.0 && scc_of@[y] == e.1 && e.0 != e.1;
                    if x == u {
                        let q = choose|q: int| g.offsets@[u as int] <= q < g.offsets@[u as int + 1] && #[trigger] g.targets@[q] == y;
                        let k = q - g.offsets@[u as int];
                        assert(out@[k] == y);
                    }
                }
            }
        }
        u = u + 1;
    }
    proof {
        edges@.lemma_cardinality_of_set();
        assert forall|i: int| 0 <= i < edges@.len() implies (#[trigger] edges@[i]).0 < scc_count && edges@[i].1 < scc_count by {
            assert(edges@.contains(edges@[i]));
            let (x, y) = choose|x: int, y: int| 0 <= x < n && #[trigger] g.edge(x, y) && scc_of@[x] == edges@[i].0
                && scc_of@[y] == edges@[i].1 && edges@[i].0 != edges@[i].1;
            let q = choose|q: int| g.offsets@[x] <= q < g.offsets@[x + 1] && #[trigger] g.targets@[q] == y;
            assert(g.offsets@[x + 1] <= g.offsets@[n as int]);
        }
    }
    let dag = CsrGraph::from_edges(scc_count, edges);
    proof {
        assert forall|a: int, b: int| #[trigger] dag.edge(a, b) <==> cross_edge(*g, scc_of@, a, b) by {
            if dag.edge(a, b) {
                reveal(CsrGraph::edge);
                assert(0 <= a < scc_count);
                let q = choose|q: int| dag.offsets@[a] <= q < dag.offsets@[a + 1] && #[trigger] dag.targets@[q] == b;
                assert(dag.offsets@[a + 1] <= dag.offsets@[scc_count as int]);
                assert(dag.edge(a as u32 as int, b as u32 as int));
                assert(edges@.contains((a as u32, b as u32)));
            }
            if cross_edge(*g, scc_of@, a, b) {
                let (x, y) = choose|x: int, y: int| #[trigger] g.edge(x, y) && scc_of@[x] == a && scc_of@[y] == b;
                reveal(CsrGraph::edge);
                let q = choose|q: int| g.offsets@[x] <= q < g.offsets@[x + 1] && #[trigger] g.targets@[q] == y;
                assert(g.offsets@[x + 1] <= g.offsets@[n as int]);
                assert(edges@.contains((a as u32, b as u32)));
                assert(dag.edge(a as u32 as int, b as u32 as int));
            }
        }
    }
    proof {
        assert forall|a: int| 0 <= a < scc_count implies #[trigger] members@[a]@.len() > 0 by {
            assert(id_used(scc_of@, a));
            let v = choose|v: int| 0 <= v < scc_of@.len() && scc_of@[v] == a;
            assert(members@[scc_of@[v] as int]@.contains(v as u32));
        }
    }
    Condensation { scc_of, scc_count, dag, members }
}

impl Condensation {
    /// The SCC id of `node`.
    pub fn scc_of(&self, node: u32) -> (res: u32)
        requires
            node < self.scc_of@.len(),
        ensures
            res == self.scc_of@[node as int],
    {
        self.scc_of[node as usize]
    }

    /// Is the condensation a true DAG? Every edge must lead to a lower
    /// component id (the order `condense` numbers components in), so no walk
    /// of one or more edges returns to where it started.
    pub fn is_acyclic(&self) -> (res: bool)
        requires
            self.dag.wf(),
            self.dag.spec_n() == self.scc_count,
        ensures
            res <==> forall|a: int, b: int| #[trigger] self.dag.edge(a, b) ==> b < a,
            res ==> forall|p: Seq<int>| #[trigger] crate::index::graph::is_path(self.dag, p) && p.len() >= 2
                ==> p.last() < p[0],
    {
        let mut a: u32 = 0;
        while a < self.scc_count
            invariant
                self.dag.wf(),
                self.dag.spec_n() == self.scc_count,
                a <= self.scc_count,
                forall|x: int, y: int| 0 <= x < a && #[trigger] self.dag.edge(x, y) ==> y < x,
            decreases self.scc_count - a,
        {
            let out = self.dag.out(a);
            proof {
                lemma_out_edges(self.dag, a as int, out@);
            }
            let mut i: usize = 0;
            while i < out.len()
                invariant
                    self.dag.wf(),
                    self.dag.spec_n() == self.scc_count,
                    a < self.scc_count,
                    forall|k: int| 0 <= k < out@.len() ==> #[trigger] out@[k] < self.dag.spec_n()
                        && self.dag.edge(a as int, out@[k] as int),
                    forall|w: int| #[trigger] self.dag.edge(a as int, w) ==> exists|k: int| 0 <= k < out@.len() && out@[k] as int == w,
                    i <= out@.len(),
                    forall|k: int| 0 <= k < i ==> #[trigger] out@[k] < a,
                decreases out@.len() - i,
            {
                if out[i] >= a {
                    proof {
                        assert(self.dag.edge(a as int, out@[i as int] as int));
                    }
                    return false;
                }
                i = i + 1;
            }
            a = a + 1;
        }
        proof {
            assert forall|x: int, y: int| #[trigger] self.dag.edge(x, y) implies y < x by {
                assert(0 <= x < self.dag.spec_n()) by {
                    reveal(CsrGraph::edge);
                }
            }
            assert forall|p: Seq<int>| #[trigger] crate::index::graph::is_path(self.dag, p) && p.len() >= 2
                implies p.last() < p[0] by {
                lemma_path_descends(self.dag, p, p.len() - 1);
                assert(self.dag.edge(p[0], p[1]));
                lemma_path_descends(self.dag, p.drop_first(), p.len() - 2);
                assert forall|i: int| #![trigger p.drop_first()[i]] 0 <= i < p.drop_first().len() - 1
                    implies self.dag.edge(p.drop_first()[i], p.drop_first()[i + 1]) by {
                    assert(p.drop_first()[i] == p[i + 1]);
                    assert(self.dag.edge(p[i + 1], p[i + 2]));
                }
            }
        }
        true
    }
}

/// The condensation of any graph is acyclic: every edge leads from a
/// component to one with a smaller number, so two components that reach
/// each other in it are the same one.
pub proof fn lemma_condensation_acyclic(g: CsrGraph, c: Condensation)
    requires
        c.dag.wf(),
        forall|a: int, b: int| #[trigger] c.dag.edge(a, b) <==> cross_edge(g, c.scc_of@, a, b),
        forall|u: int, v: int| #[trigger] g.edge(u, v) ==> c.scc_of@[v] <= c.scc_of@[u],
    ensures
        forall|a: int| !#[trigger] c.dag.edge(a, a),
        forall|a: int, b: int| #[trigger] reaches(c.dag, a, b) && #[trigger] reaches(c.dag, b, a) ==> a == b,
{
    assert forall|a: int, b: int| #[trigger] c.dag.edge(a, b) implies b < a by {
        let (x, y) = choose|x: int, y: int| #[trigger] g.edge(x, y) && c.scc_of@[x] == a && c.scc_of@[y] == b;
    }
    assert forall|a: int, b: int| #[trigger] reaches(c.dag, a, b) && #[trigger] reaches(c.dag, b, a) implies a == b by {
        let p = choose|p: Seq<int>| #[trigger] crate::index::graph::is_path(c.dag, p) && p[0] == a && p.last() == b;
        lemma_path_descends(c.dag, p, p.len() - 1);
        let q = choose|q: Seq<int>| #[trigger] crate::index::graph::is_path(c.dag, q) && q[0] == b && q.last() == a;
        lemma_path_descends(c.dag, q, q.len() - 1);
    }
}

/// In a graph whose edges lead to smaller nodes, a walk never climbs.
proof fn lemma_path_descends(d: CsrGraph, p: Seq<int>, k: int)
    requires
        forall|a: int, b: int| #[trigger] d.edge(a, b) ==> b < a,
        crate::index::graph::is_path(d, p),
        0 <= k < p.len(),
    ensures
        p[k] <= p[0],
    decreases k,
{
    if k > 0 {
        lemma_path_descends(d, p, k - 1);
        let k0 = k - 1;
        assert(d.edge(p[k0], p[k0 + 1]));
    }
}

/// Reachability survives condensation: `u` reaches `v` in the graph exactly
/// when the component of `u` reaches the component of `v` in the
/// condensation.
pub proof fn lemma_reach_through_condensation(g: CsrGraph, c: Condensation)
    requires
        g.wf(),
        c.scc_of@.len() == g.spec_n(),
        forall|u: int, v: int|
            #![trigger c.scc_of@[u], c.scc_of@[v]]
            #![trigger reaches(g, u, v), reaches(g, v, u)]
            0 <= u < g.spec_n() && 0 <= v < g.spec_n()
            ==> (c.scc_of@[u] == c.scc_of@[v] <==> reaches(g, u, v) && reaches(g, v, u)),
        forall|a: int, b: int| #[trigger] c.dag.edge(a, b) <==> cross_edge(g, c.scc_of@, a, b),
    ensures
        forall|u: int, v: int| 0 <= u < g.spec_n() && 0 <= v < g.spec_n() ==>
            (#[trigger] reaches(g, u, v) <==> reaches(c.dag, c.scc_of@[u] as int, c.scc_of@[v] as int)),
{
    assert forall|u: int, v: int| 0 <= u < g.spec_n() && 0 <= v < g.spec_n() implies
        (#[trigger] reaches(g, u, v) <==> reaches(c.dag, c.scc_of@[u] as int, c.scc_of@[v] as int)) by {
        if reaches(g, u, v) {
            let p = choose|p: Seq<int>| #[trigger] crate::index::graph::is_path(g, p) && p[0] == u && p.last() == v;
            lemma_path_condenses(g, c, p, p.len() - 1);
        }
        if reaches(c.dag, c.scc_of@[u] as int, c.scc_of@[v] as int) {
            let q = choose|q: Seq<int>| #[trigger] crate::index::graph::is_path(c.dag, q)
                && q[0] == c.scc_of@[u] as int && q.last() == c.scc_of@[v] as int;
            lemma_path_expands(g, c, q, u, v);
        }
    }
}

/// A walk in the graph gives a walk between the components of its ends.
proof fn lemma_path_condenses(g: CsrGraph, c: Condensation, p: Seq<int>, k: int)
    requires
        g.wf(),
        c.scc_of@.len() == g.spec_n(),
        forall|a: int, b: int| #[trigger] c.dag.edge(a, b) <==> cross_edge(g, c.scc_of@, a, b),
        crate::index::graph::is_path(g, p),
        0 <= k < p.len(),
    ensures
        reaches(c.dag, c.scc_of@[p[0]] as int, c.scc_of@[p[k]] as int),
    decreases k,
{
    if k == 0 {
        lemma_reaches_refl(c.dag, c.scc_of@[p[0]] as int);
    } else {
        let k0 = k - 1;
        lemma_path_condenses(g, c, p, k0);
        assert(g.edge(p[k0], p[k0 + 1]));
        let a = c.scc_of@[p[k0]] as int;
        let b = c.scc_of@[p[k]] as int;
        if a != b {
            assert(cross_edge(g, c.scc_of@, a, b));
            assert(c.dag.edge(a, b));
            lemma_reaches_step(c.dag, c.scc_of@[p[0]] as int, a, b);
        }
    }
}

/// A walk between components gives a walk between any of their members.
proof fn lemma_path_expands(g: CsrGraph, c: Condensation, q: Seq<int>, u: int, v: int)
    requires
        g.wf(),
        c.scc_of@.len() == g.spec_n(),
        forall|x: int, y: int|
            #![trigger c.scc_of@[x], c.scc_of@[y]]
            #![trigger reaches(g, x, y), reaches(g, y, x)]
            0 <= x < g.spec_n() && 0 <= y < g.spec_n()
            ==> (c.scc_of@[x] == c.scc_of@[y] <==> reaches(g, x, y) && reaches(g, y, x)),
        forall|a: int, b: int| #[trigger] c.dag.edge(a, b) <==> cross_edge(g, c.scc_of@, a, b),
        crate::index::graph::is_path(c.dag, q),
        0 <= u < g.spec_n(),
        0 <= v < g.spec_n(),
        q[0] == c.scc_of@[u] as int,
        q.last() == c.scc_of@[v] as int,
    ensures
        reaches(g, u, v),
    decreases q.len(),
{
    if q.len() == 1 {
        assert(c.scc_of@[u] == c.scc_of@[v]);
    } else {
        assert(c.dag.edge(q[0], q[1]));
        let (x, y) = choose|x: int, y: int| #[trigger] g.edge(x, y) && c.scc_of@[x] == q[0] && c.scc_of@[y] == q[1];
        reveal(CsrGraph::edge);
        let e = lemma_edge_succ(g, x, y);
        lemma_succ_range(g, x, e);
        assert(c.scc_of@[u] == c.scc_of@[x]);
        assert(reaches(g, u, x));
        lemma_reaches_step(g, u, x, y);
        let r = q.drop_first();
        assert forall|i: int| #![trigger r[i]] 0 <= i < r.len() - 1 implies c.dag.edge(r[i], r[i + 1]) by {
            assert(r[i] == q[i + 1] && r[i + 1] == q[i + 2]);
        }
        lemma_path_expands(g, c, r, y, v);
        lemma_reaches_trans(g, u, y, v);
    }
}

} // verus!
