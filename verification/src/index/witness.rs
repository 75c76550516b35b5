//! Witness paths: shortest walks along call edges, found breadth-first, and
//! reachability answered through the condensation and its labels.

use vstd::prelude::*;
use std::collections::VecDeque;
use crate::index::bitset::{bits_of, bitset_with_capacity, bitset_insert, bitset_put};
use crate::index::graph::{
    CsrGraph, csr_list, is_path, reaches, closed_under_edges, count_unset, lemma_count_unset_set,
    lemma_closed_holds_reached, lemma_reaches_refl, lemma_reached_in_range,
};
use crate::index::scc::{Condensation, lemma_reach_through_condensation};
use crate::index::labels::ReachLabels;

verus! {

/// `p`, read as integers, is a walk in `g` from `a` to `b`.
pub open spec fn walk_from_to(g: CsrGraph, p: Seq<u32>, a: int, b: int) -> bool {
    &&& is_path(g, p.map_values(|x: u32| x as int))
    &&& p[0] == a
    &&& p.last() == b
}

/// The neighbours of `u` are exactly the targets of its out-edges.
pub(crate) proof fn lemma_out_edges(g: CsrGraph, u: int, nb: Seq<u32>)
    requires
        g.wf(),
        0 <= u < g.spec_n(),
        nb == csr_list(g.offsets@, g.targets@, u),
    ensures
        forall|w: int| #[trigger] g.edge(u, w) ==> exists|k: int| 0 <= k < nb.len() && nb[k] as int == w,
        forall|k: int| 0 <= k < nb.len() ==> #[trigger] nb[k] < g.spec_n() && g.edge(u, nb[k] as int),
{
    reveal(CsrGraph::edge);
    let off = g.offsets@;
    let tgt = g.targets@;
    assert(off[u] <= off[u + 1] && off[u + 1] <= off[g.spec_n() as int]);
    assert forall|k: int| 0 <= k < nb.len() implies #[trigger] nb[k] < g.spec_n() && g.edge(u, nb[k] as int) by {
        assert(nb[k] == tgt[off[u] + k]);
    }
    assert forall|w: int| #[trigger] g.edge(u, w) implies exists|k: int| 0 <= k < nb.len() && nb[k] as int == w by {
        let p = choose|p: int| off[u] <= p < off[u + 1] && #[trigger] tgt[p] == w;
        assert(nb[p - off[u]] == w);
    }
}

/// The shape of a breadth-first search from `from`: `seen` lists the
/// visited nodes in visiting order, `pos` inverts it, and every node but
/// the first was reached by an edge from its parent, visited earlier.
pub open spec fn bfs_shape(g: CsrGraph, from: u32, seen: Seq<u32>, vis: Seq<bool>, parent: Seq<u32>, pos: Seq<int>) -> bool {
    let n = g.spec_n();
    &&& vis.len() == n
    &&& parent.len() == n
    &&& pos.len() == n
    &&& seen.len() >= 1
    &&& seen[0] == from
    &&& forall|k: int| 0 <= k < seen.len() ==> #[trigger] seen[k] < n && pos[seen[k] as int] == k
    &&& forall|v: int| 0 <= v < n ==> (#[trigger] vis[v] <==> 0 <= pos[v] < seen.len() && seen[pos[v]] == v)
    &&& forall|k: int| 1 <= k < seen.len() ==> {
        let v = #[trigger] seen[k];
        let p = parent[v as int];
        &&& p < n
        &&& 0 <= pos[p as int] < k
        &&& seen[pos[p as int]] == p
        &&& g.edge(p as int, v as int)
    }
}

/// Levels of a breadth-first search: `lv[v]` is the number of edges on the
/// parent path from `from` to `v`; levels never fall along the visiting
/// order, and every parent is among the first `h` visited nodes.
pub open spec fn bfs_levels(seen: Seq<u32>, parent: Seq<u32>, pos: Seq<int>, lv: Seq<int>, h: int) -> bool {
    &&& lv.len() == pos.len()
    &&& lv[seen[0] as int] == 0
    &&& forall|k: int| 1 <= k < seen.len() ==> #[trigger] lv[seen[k] as int] == lv[parent[seen[k] as int] as int] + 1
        && pos[parent[seen[k] as int] as int] < h
    &&& forall|k1: int, k2: int| 0 <= k1 <= k2 < seen.len() ==> #[trigger] lv[seen[k1] as int] <= #[trigger] lv[seen[k2] as int]
}

/// Levels stay valid when one more node is processed.
proof fn lemma_levels_grow(seen: Seq<u32>, parent: Seq<u32>, pos: Seq<int>, lv: Seq<int>, h: int)
    requires
        bfs_levels(seen, parent, pos, lv, h),
    ensures
        bfs_levels(seen, parent, pos, lv, h + 1),
{
}

/// Every node among the first `h` visited has all its successors visited,
/// at most one level further.
pub open spec fn bfs_relaxed(g: CsrGraph, seen: Seq<u32>, vis: Seq<bool>, lv: Seq<int>, h: int) -> bool {
    forall|i: int, w: int| 0 <= i < h && #[trigger] g.edge(seen[i] as int, w)
        ==> 0 <= w < vis.len() && vis[w] && lv[w] <= lv[seen[i] as int] + 1
}

/// Walk back from `v` along parents: the result is a walk from `from` to
/// `v` in `g`, reversed.
proof fn lemma_parent_step(g: CsrGraph, from: u32, seen: Seq<u32>, vis: Seq<bool>, parent: Seq<u32>, pos: Seq<int>, v: int)
    requires
        bfs_shape(g, from, seen, vis, parent, pos),
        0 <= v < g.spec_n(),
        vis[v],
        v != from,
    ensures
        parent[v] < g.spec_n(),
        vis[parent[v] as int],
        pos[parent[v] as int] < pos[v],
        g.edge(parent[v] as int, v),
{
    let k = pos[v];
    assert(seen[k] == v);
    assert(k != 0);
    let p = parent[v];
    assert(seen[pos[p as int]] == p);
}

/// Along a walk from `from`, each node up to `i` is either processed (among
/// the first `h`) at a level no greater than its index, or the head of the
/// queue is at a level no greater than `i`.
proof fn lemma_bfs_prefix(g: CsrGraph, from: u32, seen: Seq<u32>, vis: Seq<bool>, parent: Seq<u32>, pos: Seq<int>,
    lv: Seq<int>, h: int, q: Seq<int>, i: int)
    requires
        bfs_shape(g, from, seen, vis, parent, pos),
        bfs_levels(seen, parent, pos, lv, h),
        bfs_relaxed(g, seen, vis, lv, h),
        0 <= h < seen.len(),
        is_path(g, q),
        q[0] == from,
        0 <= i < q.len(),
    ensures
        (0 <= q[i] < g.spec_n() && vis[q[i]] && pos[q[i]] < h && lv[q[i]] <= i) || lv[seen[h] as int] <= i,
    decreases i,
{
    if i == 0 {
        assert(pos[from as int] == 0 && seen[0] == from);
        if h == 0 {
            assert(lv[seen[0] as int] <= lv[seen[h] as int]);
        } else {
            assert(vis[from as int]);
        }
    } else {
        lemma_bfs_prefix(g, from, seen, vis, parent, pos, lv, h, q, i - 1);
        if 0 <= q[i - 1] < g.spec_n() && vis[q[i - 1]] && pos[q[i - 1]] < h && lv[q[i - 1]] <= i - 1 {
            let x = q[i - 1];
            let k = pos[x];
            assert(seen[k] == x);
            assert(g.edge(q[i - 1], q[i]));
            assert(g.edge(seen[k] as int, q[i]));
            let w = q[i];
            assert(vis[w] && lv[w] <= lv[x] + 1);
            if pos[w] >= h {
                assert(seen[pos[w]] == w);
                assert(lv[seen[h] as int] <= lv[seen[pos[w]] as int]);
            }
        }
    }
}

/// Breadth-first search for a node path in a DAG: the path, as a list of
/// nodes from `from` to `to`, or `None` where `to` cannot be reached. The
/// path is a shortest one.
#[verifier::rlimit(50)]
#[verifier::spinoff_prover]
pub fn bfs_node_path(dag: &CsrGraph, from: u32, to: u32) -> (res: Option<Vec<u32>>)
    requires
        dag.wf(),
        from < dag.spec_n(),
    ensures
        res is Some <==> reaches(*dag, from as int, to as int),
        res matches Some(p) ==> walk_from_to(*dag, p@, from as int, to as int),
        res matches Some(p) ==> forall|q: Seq<int>| #[trigger] is_path(*dag, q) && q[0] == from && q.last() == to
            ==> p@.len() <= q.len(),
{
    let n = dag.node_count() as usize;
    let mut parent: Vec<u32> = vec![u32::MAX; n];
    let mut visited = bitset_with_capacity(n);
    let mut q: VecDeque<u32> = VecDeque::new();
    bitset_insert(&mut visited, from as usize);
    q.push_back(from);
    let ghost mut seen: Seq<u32> = seq![from];
    let ghost mut h: int = 0;
    let ghost mut pos: Seq<int> = Seq::new(n as nat, |v: int| if v == from { 0int } else { -1int });
    let ghost mut lv: Seq<int> = Seq::new(n as nat, |v: int| 0int);
    proof {
        assert(bfs_shape(*dag, from, seen, bits_of(visited), parent@, pos));
    }
    while q.len() > 0
        invariant
            dag.wf(),
            n == dag.spec_n(),
            from < n,
            bfs_shape(*dag, from, seen, bits_of(visited), parent@, pos),
            bfs_levels(seen, parent@, pos, lv, h),
            0 <= h <= seen.len(),
            q@ == seen.subrange(h, seen.len() as int),
            bfs_relaxed(*dag, seen, bits_of(visited), lv, h),
            forall|i: int| 0 <= i < h ==> #[trigger] seen[i] != to,
        decreases count_unset(bits_of(visited)) + q@.len(),
    {
        let ghost c0 = count_unset(bits_of(visited)) + q@.len();
        let u = q.pop_front().unwrap();
        assert(u == seen[h]);
        if u == to {
            proof {
                assert forall|w: Seq<int>| #[trigger] is_path(*dag, w) && w[0] == from && w.last() == to
                    implies lv[to as int] + 1 <= w.len() by {
                    lemma_bfs_prefix(*dag, from, seen, bits_of(visited), parent@, pos, lv, h, w, w.len() - 1);
                    assert(pos[to as int] == h);
                }
            }
            return Some(self::trace_back(dag, from, to, &parent, Ghost(seen), Ghost(bits_of(visited)), Ghost(pos), Ghost(lv), Ghost(h)));
        }
        proof {
            lemma_levels_grow(seen, parent@, pos, lv, h);
            h = h + 1;
            assert forall|k: int| 0 <= k < seen.len() implies #[trigger] lv[seen[k] as int] <= lv[u as int] + 1 by {
                if k >= 1 {
                    let p = parent@[seen[k] as int];
                    assert(seen[pos[p as int]] == p);
                    assert(lv[seen[pos[p as int]] as int] <= lv[seen[h - 1] as int]);
                }
                assert(lv[seen[0] as int] <= lv[seen[h - 1] as int]);
            }
        }
        let nb = dag.out(u);
        proof {
            lemma_out_edges(*dag, u as int, nb@);
        }
        let mut j: usize = 0;
        while j < nb.len()
            invariant
                dag.wf(),
                n == dag.spec_n(),
                from < n,
                u < n,
                u == seen[h - 1],
                nb@ == csr_list(dag.offsets@, dag.targets@, u as int),
                forall|w: int| #[trigger] dag.edge(u as int, w) ==> exists|k: int| 0 <= k < nb@.len() && nb@[k] as int == w,
                forall|k: int| 0 <= k < nb@.len() ==> #[trigger] nb@[k] < n && dag.edge(u as int, nb@[k] as int),
                j <= nb@.len(),
                bfs_shape(*dag, from, seen, bits_of(visited), parent@, pos),
                bfs_levels(seen, parent@, pos, lv, h),
                1 <= h <= seen.len(),
                q@ == seen.subrange(h, seen.len() as int),
                bfs_relaxed(*dag, seen, bits_of(visited), lv, h - 1),
                forall|k: int| 0 <= k < seen.len() ==> #[trigger] lv[seen[k] as int] <= lv[u as int] + 1,
                forall|k: int| 0 <= k < j ==> #[trigger] bits_of(visited)[nb@[k] as int] && lv[nb@[k] as int] <= lv[u as int] + 1,
                forall|i: int| 0 <= i < h ==> #[trigger] seen[i] != to,
                count_unset(bits_of(visited)) + q@.len() + 1 == c0,
            decreases nb@.len() - j,
        {
            let v = nb[j];
            let ghost vis0 = bits_of(visited);
            let ghost lv0 = lv;
            let ghost seen0 = seen;
            let was = bitset_put(&mut visited, v as usize);
            proof {
                lemma_count_unset_set(vis0, v as int);
            }
            if !was {
                parent.set(v as usize, u);
                q.push_back(v);
                proof {
                    let k_new = seen.len() as int;
                    assert forall|k: int| 0 <= k < seen.len() implies #[trigger] seen[k] != v by {
                        assert(pos[seen[k] as int] == k);
                    }
                    assert(vis0[u as int]) by {
                        assert(pos[u as int] == h - 1);
                    }
                    seen = seen.push(v);
                    pos = pos.update(v as int, k_new);
                    lv = lv.update(v as int, lv0[u as int] + 1);
                    assert(bfs_shape(*dag, from, seen, bits_of(visited), parent@, pos)) by {
                        let vis = bits_of(visited);
                        assert forall|k: int| 0 <= k < seen.len() implies #[trigger] seen[k] < n && pos[seen[k] as int] == k by {
                            if k < k_new {
                                assert(seen[k] != v);
                            }
                        }
                        assert forall|x: int| 0 <= x < n implies (#[trigger] vis[x] <==> 0 <= pos[x] < seen.len() && seen[pos[x]] == x) by {
                            if x != v {
                                assert(vis[x] == vis0[x]);
                            }
                        }
                        assert forall|k: int| 1 <= k < seen.len() implies {
                            let w = #[trigger] seen[k];
                            let p = parent@[w as int];
                            &&& p < n
                            &&& 0 <= pos[p as int] < k
                            &&& seen[pos[p as int]] == p
                            &&& dag.edge(p as int, w as int)
                        } by {
                            if k < k_new {
                                assert(seen[k] != v);
                                let w = seen[k];
                                let p = parent@[w as int];
                                assert(seen[pos[p as int]] == p);
                                assert(p != v);
                            } else {
                                assert(seen[k] == v);
                                assert(pos[u as int] == h - 1);
                                assert(u != v);
                            }
                        }
                    }
                    assert(bfs_levels(seen, parent@, pos, lv, h)) by {
                        assert(seen[0] == seen0[0]);
                        assert(seen0[0] != v);
                        assert forall|k: int| 1 <= k < seen.len() implies #[trigger] lv[seen[k] as int] == lv[parent@[seen[k] as int] as int] + 1
                            && pos[parent@[seen[k] as int] as int] < h by {
                            if k < k_new {
                                let w = seen0[k];
                                assert(seen[k] == w && w != v);
                                let p = parent@[w as int];
                                assert(seen0[pos[p as int]] == p);
                                assert(p != v);
                            } else {
                                assert(seen[k] == v);
                                assert(u != v);
                            }
                        }
                        assert forall|k1: int, k2: int| 0 <= k1 <= k2 < seen.len() implies #[trigger] lv[seen[k1] as int] <= #[trigger] lv[seen[k2] as int] by {
                            if k2 < k_new {
                                assert(seen[k1] == seen0[k1] && seen0[k1] != v);
                                assert(seen[k2] == seen0[k2] && seen0[k2] != v);
                                assert(lv0[seen0[k1] as int] <= lv0[seen0[k2] as int]);
                            } else if k1 < k_new {
                                assert(seen[k1] == seen0[k1] && seen0[k1] != v);
                                assert(lv0[seen0[k1] as int] <= lv0[u as int] + 1);
                            }
                        }
                    }
                    assert forall|k: int| 0 <= k < seen.len() implies #[trigger] lv[seen[k] as int] <= lv[u as int] + 1 by {
                        if k < k_new {
                            assert(seen[k] == seen0[k] && seen0[k] != v);
                            assert(lv0[seen0[k] as int] <= lv0[u as int] + 1);
                        }
                    }
                    assert(q@ =~= seen.subrange(h, seen.len() as int));
                }
            } else {
                proof {
                    let k = pos[v as int];
                    assert(seen[k] == v);
                    assert(lv[seen[k] as int] <= lv[u as int] + 1);
                }
            }
            proof {
                assert forall|i: int, w: int| 0 <= i < h - 1 && #[trigger] dag.edge(seen[i] as int, w)
                    implies 0 <= w < bits_of(visited).len() && bits_of(visited)[w] && lv[w] <= lv[seen[i] as int] + 1 by {
                    assert(seen[i] == seen0[i]);
                    assert(0 <= w < vis0.len() && vis0[w] && lv0[w] <= lv0[seen0[i] as int] + 1);
                    if !was {
                        assert(w != v);
                        assert(seen0[i] != v);
                    }
                }
                assert forall|k: int| 0 <= k < j + 1 implies #[trigger] bits_of(visited)[nb@[k] as int] && lv[nb@[k] as int] <= lv[u as int] + 1 by {
                    if k < j && !was {
                        assert(vis0[nb@[k] as int]);
                        assert(nb@[k] != v);
                    }
                }
            }
            j = j + 1;
        }
        proof {
            assert forall|i: int, w: int| 0 <= i < h && #[trigger] dag.edge(seen[i] as int, w)
                implies 0 <= w < bits_of(visited).len() && bits_of(visited)[w] && lv[w] <= lv[seen[i] as int] + 1 by {
                if i == h - 1 {
                    let k = choose|k: int| 0 <= k < nb@.len() && nb@[k] as int == w;
                    assert(bits_of(visited)[nb@[k] as int]);
                }
            }
        }
    }
    proof {
        let vis = bits_of(visited);
        assert(h == seen.len());
        assert(closed_under_edges(*dag, vis)) by {
            assert forall|u: int, v: int| 0 <= u < vis.len() && vis[u] && #[trigger] dag.edge(u, v) implies 0 <= v < vis.len() && vis[v] by {
                let i = pos[u];
                assert(seen[i] == u);
                assert(dag.edge(seen[i] as int, v));
            }
        }
        if reaches(*dag, from as int, to as int) {
            assert(vis[from as int]) by {
                assert(seen[0] == from);
                assert(pos[from as int] == 0);
            }
            lemma_closed_holds_reached(*dag, vis, from as int, to as int);
            let i = pos[to as int];
            assert(seen[i] == to);
        }
    }
    None
}

/// Follow parents back from `to` to `from` and return the path forward: it
/// has one node more than `to`'s level.
fn trace_back(dag: &CsrGraph, from: u32, to: u32, parent: &Vec<u32>, Ghost(seen): Ghost<Seq<u32>>,
    Ghost(vis): Ghost<Seq<bool>>, Ghost(pos): Ghost<Seq<int>>, Ghost(lv): Ghost<Seq<int>>, Ghost(h): Ghost<int>) -> (p: Vec<u32>)
    requires
        dag.wf(),
        bfs_shape(*dag, from, seen, vis, parent@, pos),
        bfs_levels(seen, parent@, pos, lv, h),
        to < dag.spec_n(),
        vis[to as int],
    ensures
        walk_from_to(*dag, p@, from as int, to as int),
        reaches(*dag, from as int, to as int),
        p@.len() == lv[to as int] + 1,
{
    let mut rev: Vec<u32> = Vec::new();
    rev.push(to);
    let mut cur = to;
    while cur != from
        invariant
            dag.wf(),
            bfs_shape(*dag, from, seen, vis, parent@, pos),
            bfs_levels(seen, parent@, pos, lv, h),
            cur < dag.spec_n(),
            vis[cur as int],
            rev@.len() >= 1,
            rev@[0] == to,
            rev@.last() == cur,
            rev@.len() + lv[cur as int] == lv[to as int] + 1,
            forall|i: int| 0 <= i < rev@.len() - 1 ==> #[trigger] dag.edge(rev@[i + 1] as int, rev@[i] as int),
        decreases pos[cur as int],
    {
        proof {
            lemma_parent_step(*dag, from, seen, vis, parent@, pos, cur as int);
            let k = pos[cur as int];
            assert(seen[k] == cur && k >= 1);
            assert(lv[seen[k] as int] == lv[parent@[seen[k] as int] as int] + 1);
        }
        let ghost r0 = rev@;
        cur = parent[cur as usize];
        rev.push(cur);
        proof {
            assert forall|i: int| 0 <= i < rev@.len() - 1 implies #[trigger] dag.edge(rev@[i + 1] as int, rev@[i] as int) by {
                if i < r0.len() - 1 {
                    assert(rev@[i] == r0[i] && rev@[i + 1] == r0[i + 1]);
                }
            }
        }
    }
    proof {
        assert(seen[0] == from);
    }
    let mut path: Vec<u32> = Vec::new();
    let mut k: usize = rev.len();
    while k > 0
        invariant
            k <= rev@.len(),
            rev@.len() >= 1,
            path@.len() == rev@.len() - k,
            forall|i: int| 0 <= i < path@.len() ==> #[trigger] path@[i] == rev@[rev@.len() - 1 - i],
        decreases k,
    {
        k = k - 1;
        path.push(rev[k]);
    }
    proof {
        let ip = path@.map_values(|x: u32| x as int);
        let l = rev@.len() as int;
        assert forall|i: int| #![trigger ip[i]] 0 <= i < ip.len() - 1 implies dag.edge(ip[i], ip[i + 1]) by {
            let j = l - 2 - i;
            assert(path@[i] == rev@[j + 1]);
            assert(path@[i + 1] == rev@[j]);
            assert(dag.edge(rev@[j + 1] as int, rev@[j] as int));
        }
        assert(path@[0] == rev@[l - 1]);
        assert(path@.last() == rev@[0]);
        assert(is_path(*dag, ip));
        assert(ip[0] == from && ip.last() == to);
    }
    path
}

/// A witness path from `from` to `to`, if `to` is reachable: a shortest
/// walk along call edges, found breadth-first; `from` alone when the two are
/// the same node.
pub fn witness_chain(graph: &CsrGraph, from: u32, to: u32) -> (res: Option<Vec<u32>>)
    requires
        graph.wf(),
        from == to || (from < graph.spec_n() && to < graph.spec_n()),
    ensures
        res is Some <==> reaches(*graph, from as int, to as int),
        res matches Some(p) ==> walk_from_to(*graph, p@, from as int, to as int),
        res matches Some(p) ==> forall|q: Seq<int>| #[trigger] is_path(*graph, q) && q[0] == from && q.last() == to
            ==> p@.len() <= q.len(),
{
    if from == to {
        let p = vec![from];
        proof {
            lemma_reaches_refl(*graph, from as int);
            let ip = p@.map_values(|x: u32| x as int);
            assert(ip =~= seq![from as int]);
            assert(is_path(*graph, ip));
        }
        return Some(p);
    }
    bfs_node_path(graph, from, to)
}

/// Does `from` reach `to` in `graph`? Nodes of one component reach each
/// other; otherwise the labels over the condensation answer for their
/// components.
pub fn symbol_reaches(graph: &CsrGraph, cond: &Condensation, labels: &ReachLabels, from: u32, to: u32) -> (res: bool)
    requires
        graph.wf(),
        cond.is_condensation_of(*graph),
        labels.labels_for(cond.dag),
        from == to || (from < graph.spec_n() && to < graph.spec_n()),
    ensures
        res == reaches(*graph, from as int, to as int),
{
    if from == to {
        proof {
            lemma_reaches_refl(*graph, from as int);
        }
        return true;
    }
    let sf = cond.scc_of(from);
    let st = cond.scc_of(to);
    if sf == st {
        return true;
    }
    proof {
        lemma_reach_through_condensation(*graph, *cond);
    }
    labels.reaches(&cond.dag, sf, st)
}

} // verus!
