//! Worker assignment by LPT list scheduling (Graham): chains, heaviest
//! first, each go to the currently least-loaded worker.

use vstd::prelude::*;

verus! {

/// `order` lists the item indices `0..ws.len()` once each, heaviest first,
/// equal weights in index order (a stable sort by descending weight).
pub open spec fn desc_stable(ws: Seq<(u32, u32)>, order: Seq<int>) -> bool {
    &&& order.len() == ws.len()
    &&& order.no_duplicates()
    &&& forall|a: int| 0 <= a < order.len() ==> 0 <= #[trigger] order[a] < ws.len()
    &&& forall|a: int, b: int| 0 <= a < b < order.len() ==>
        ws[#[trigger] order[a]].1 > ws[#[trigger] order[b]].1
            || (ws[order[a]].1 == ws[order[b]].1 && order[a] < order[b])
}

/// The first index of a least value.
pub open spec fn argmin_first(loads: Seq<int>) -> int
    decreases loads.len(),
{
    if loads.len() <= 1 {
        0
    } else {
        let k = argmin_first(loads.drop_last());
        if loads.last() < loads[k] {
            loads.len() - 1
        } else {
            k
        }
    }
}

/// Loads and per-worker chain lists after the greedy has placed the items of
/// `order`, in order, on `w` workers.
pub open spec fn greedy(ws: Seq<(u32, u32)>, order: Seq<int>, w: nat) -> (Seq<int>, Seq<Seq<u32>>)
    decreases order.len(),
{
    if order.len() == 0 {
        (Seq::new(w, |k: int| 0int), Seq::new(w, |k: int| Seq::<u32>::empty()))
    } else {
        let prev = greedy(ws, order.drop_last(), w);
        let item = ws[order.last()];
        let j = argmin_first(prev.0);
        (prev.0.update(j, prev.0[j] + item.1), prev.1.update(j, prev.1[j].push(item.0)))
    }
}

/// The workers that received at least one chain.
pub open spec fn nonempty_parts(parts: Seq<Seq<u32>>) -> Seq<Seq<u32>> {
    parts.filter(|p: Seq<u32>| p.len() > 0)
}

/// Total weight of the items at the listed indices.
pub open spec fn wsum_idx(ws: Seq<(u32, u32)>, idx: Seq<int>) -> int
    decreases idx.len(),
{
    if idx.len() == 0 {
        0
    } else {
        wsum_idx(ws, idx.drop_last()) + ws[idx.last()].1
    }
}

/// Total weight.
pub open spec fn wsum(ws: Seq<(u32, u32)>) -> int {
    wsum_idx(ws, Seq::new(ws.len(), |i: int| i))
}

pub open spec fn sum_int(s: Seq<int>) -> int
    decreases s.len(),
{
    if s.len() == 0 {
        0
    } else {
        sum_int(s.drop_last()) + s.last()
    }
}

proof fn lemma_wsum_insert(ws: Seq<(u32, u32)>, s: Seq<int>, p: int, x: int)
    requires
        0 <= p <= s.len(),
    ensures
        wsum_idx(ws, s.insert(p, x)) == wsum_idx(ws, s) + ws[x].1,
    decreases s.len(),
{
    if p == s.len() {
        assert(s.insert(p, x).drop_last() =~= s);
    } else {
        lemma_wsum_insert(ws, s.drop_last(), p, x);
        assert(s.insert(p, x).drop_last() =~= s.drop_last().insert(p, x));
    }
}

proof fn lemma_wsum_prefix(ws: Seq<(u32, u32)>, s: Seq<int>, t: int)
    requires
        0 <= t <= s.len(),
        forall|i: int| 0 <= i < s.len() ==> 0 <= #[trigger] s[i] < ws.len(),
    ensures
        wsum_idx(ws, s.take(t)) <= wsum_idx(ws, s),
    decreases s.len() - t,
{
    if t < s.len() {
        lemma_wsum_prefix(ws, s, t + 1);
        assert(s.take(t + 1).drop_last() =~= s.take(t));
    } else {
        assert(s.take(t) =~= s);
    }
}

proof fn lemma_sum_update(s: Seq<int>, j: int, v: int)
    requires
        0 <= j < s.len(),
    ensures
        sum_int(s.update(j, v)) == sum_int(s) - s[j] + v,
    decreases s.len(),
{
    if j < s.len() - 1 {
        lemma_sum_update(s.drop_last(), j, v);
        assert(s.update(j, v).drop_last() =~= s.drop_last().update(j, v));
    } else {
        assert(s.update(j, v).drop_last() =~= s.drop_last());
    }
}

proof fn lemma_sum_bound(s: Seq<int>, j: int)
    requires
        0 <= j < s.len(),
        forall|i: int| 0 <= i < s.len() ==> #[trigger] s[i] >= 0,
    ensures
        s[j] <= sum_int(s),
        sum_int(s) >= 0,
    decreases s.len(),
{
    let d = s.drop_last();
    assert forall|i: int| 0 <= i < d.len() implies #[trigger] d[i] >= 0 by {
        assert(d[i] == s[i]);
    }
    if j < s.len() - 1 {
        lemma_sum_bound(d, j);
        assert(d[j] == s[j]);
    } else if s.len() > 1 {
        lemma_sum_bound(d, 0);
    } else {
        assert(sum_int(d) == 0);
    }
}

proof fn lemma_sum_zeros(w: nat)
    ensures
        sum_int(Seq::new(w, |k: int| 0int)) == 0,
    decreases w,
{
    if w > 0 {
        lemma_sum_zeros((w - 1) as nat);
        assert(Seq::new(w, |k: int| 0int).drop_last() =~= Seq::new((w - 1) as nat, |k: int| 0int));
    }
}

proof fn lemma_argmin_first(loads: Seq<int>)
    requires
        loads.len() > 0,
    ensures
        0 <= argmin_first(loads) < loads.len(),
        forall|k: int| 0 <= k < loads.len() ==> loads[argmin_first(loads)] <= #[trigger] loads[k],
        forall|k: int| 0 <= k < argmin_first(loads) ==> loads[argmin_first(loads)] < #[trigger] loads[k],
    decreases loads.len(),
{
    if loads.len() > 1 {
        let d = loads.drop_last();
        lemma_argmin_first(d);
        assert forall|k: int| 0 <= k < d.len() implies #[trigger] d[k] == loads[k] by {}
        let a = argmin_first(d);
        assert(d[a] == loads[a]);
        let r = argmin_first(loads);
        assert forall|k: int| 0 <= k < loads.len() implies loads[r] <= #[trigger] loads[k] by {
            if k < d.len() {
                assert(d[a] <= d[k]);
            }
        }
        assert forall|k: int| 0 <= k < r implies loads[r] < #[trigger] loads[k] by {
            if r == loads.len() - 1 {
                assert(d[a] <= d[k]);
            } else {
                assert(d[a] < d[k]);
            }
        }
    }
}

proof fn lemma_greedy_shape(ws: Seq<(u32, u32)>, order: Seq<int>, w: nat)
    requires
        forall|i: int| 0 <= i < order.len() ==> 0 <= #[trigger] order[i] < ws.len(),
        w > 0,
    ensures
        greedy(ws, order, w).0.len() == w,
        greedy(ws, order, w).1.len() == w,
        sum_int(greedy(ws, order, w).0) == wsum_idx(ws, order),
        forall|k: int| 0 <= k < w ==> #[trigger] greedy(ws, order, w).0[k] >= 0,
    decreases order.len(),
{
    if order.len() == 0 {
        lemma_sum_zeros(w);
    } else {
        lemma_greedy_shape(ws, order.drop_last(), w);
        let prev = greedy(ws, order.drop_last(), w);
        lemma_argmin_first(prev.0);
        let j = argmin_first(prev.0);
        lemma_sum_update(prev.0, j, prev.0[j] + ws[order.last()].1);
    }
}

/// A stable sort of the item indices by descending weight.
fn order_by_weight(weights: &[(u32, u32)]) -> (order: Vec<usize>)
    ensures
        desc_stable(weights@, order@.map_values(|i: usize| i as int)),
        wsum_idx(weights@, order@.map_values(|i: usize| i as int)) == wsum(weights@),
{
    let m = weights.len();
    let mut order: Vec<usize> = Vec::new();
    let mut i: usize = 0;
    while i < m
        invariant
            m == weights@.len(),
            i <= m,
            desc_stable(weights@.take(i as int), order@.map_values(|x: usize| x as int)),
            wsum_idx(weights@, order@.map_values(|x: usize| x as int))
                == wsum_idx(weights@, Seq::new(i as nat, |k: int| k)),
        decreases m - i,
    {
        let wt = weights[i].1;
        proof {
            let o = order@.map_values(|x: usize| x as int);
            assert forall|a: int| 0 <= a < order@.len() implies #[trigger] order@[a] < i by {
                assert(o[a] == order@[a] as int);
            }
        }
        let mut p: usize = 0;
        while p < order.len() && weights[order[p]].1 >= wt
            invariant
                m == weights@.len(),
                i < m,
                wt == weights@[i as int].1,
                p <= order@.len(),
                order@.len() == i,
                desc_stable(weights@.take(i as int), order@.map_values(|x: usize| x as int)),
                forall|a: int| 0 <= a < order@.len() ==> #[trigger] order@[a] < i,
                forall|a: int| 0 <= a < p ==> weights@[#[trigger] order@[a] as int].1 >= wt,
            decreases order@.len() - p,
        {
            p = p + 1;
        }
        let ghost before = order@.map_values(|x: usize| x as int);
        proof {
            if p < order@.len() {
                assert(weights@[order@[p as int] as int].1 < wt);
                assert(before[p as int] == order@[p as int] as int);
            }
        }
        order.insert(p, i);
        proof {
            let o = order@.map_values(|x: usize| x as int);
            let ws = weights@.take(i + 1);
            assert(o =~= before.insert(p as int, i as int));
            assert forall|a: int| 0 <= a < o.len() implies 0 <= #[trigger] o[a] < ws.len() by {
                if a < p {
                    assert(o[a] == before[a]);
                } else if a > p {
                    assert(o[a] == before[a - 1]);
                }
            }
            assert forall|a: int, b: int| 0 <= a < b < o.len() implies
                ws[#[trigger] o[a]].1 > ws[#[trigger] o[b]].1
                    || (ws[o[a]].1 == ws[o[b]].1 && o[a] < o[b]) by {
                assert(forall|k: int| 0 <= k < i ==> ws[k] == weights@.take(i as int)[k]);
                if b < p {
                    assert(o[a] == before[a] && o[b] == before[b]);
                } else if b == p {
                    assert(o[a] == before[a]);
                    assert(weights@[before[a]].1 >= wt);
                } else if a == p {
                    assert(o[b] == before[b - 1]);
                    assert(weights@[before[p as int]].1 < wt);
                    if b - 1 > p {
                        let wt_prev = weights@.take(i as int);
                        assert(wt_prev[before[p as int]] == weights@[before[p as int]]);
                        assert(wt_prev[before[b - 1]] == weights@[before[b - 1]]);
                    }
                } else if a < p {
                    assert(o[a] == before[a] && o[b] == before[b - 1]);
                } else {
                    assert(o[a] == before[a - 1] && o[b] == before[b - 1]);
                }
            }
            assert(o.no_duplicates()) by {
                assert forall|a: int, b: int| 0 <= a < o.len() && 0 <= b < o.len() && a != b implies o[a] != o[b] by {
                    if a == p {
                        assert(o[b] < i);
                    } else if b == p {
                        assert(o[a] < i);
                    } else {
                        let a0 = if a < p { a } else { a - 1 };
                        let b0 = if b < p { b } else { b - 1 };
                        assert(o[a] == before[a0] && o[b] == before[b0]);
                    }
                }
            }
            lemma_wsum_insert(weights@, before, p as int, i as int);
            assert(Seq::new((i + 1) as nat, |k: int| k).drop_last() =~= Seq::new(i as nat, |k: int| k));
        }
        i = i + 1;
    }
    proof {
        assert(weights@.take(m as int) =~= weights@);
    }
    order
}

/// LPT list scheduling: chains, heaviest first (equal weights in input
/// order), each go to the least-loaded worker (the lowest-numbered on a
/// tie). Returns the chain-id lists of the workers that received any;
/// `weights[i]` is `(chain_id, weight)`. With no workers, no lists.
pub fn lpt(weights: &[(u32, u32)], w: usize) -> (res: Vec<Vec<u32>>)
    requires
        wsum(weights@) <= u32::MAX,
    ensures
        w == 0 ==> res@.len() == 0,
        w > 0 ==> exists|order: Seq<int>| desc_stable(weights@, order)
            && res@.map_values(|p: Vec<u32>| p@) == nonempty_parts(greedy(weights@, order, w as nat).1),
{
    if w == 0 {
        return Vec::new();
    }
    let order = order_by_weight(weights);
    let ghost ord = order@.map_values(|i: usize| i as int);
    let mut loads: Vec<u32> = Vec::new();
    let mut parts: Vec<Vec<u32>> = Vec::new();
    let mut k: usize = 0;
    while k < w
        invariant
            k <= w,
            loads@.len() == k,
            parts@.len() == k,
            forall|a: int| 0 <= a < k ==> #[trigger] loads@[a] == 0,
            forall|a: int| 0 <= a < k ==> (#[trigger] parts@[a])@.len() == 0,
        decreases w - k,
    {
        loads.push(0);
        parts.push(Vec::new());
        k = k + 1;
    }
    let m = order.len();
    let mut t: usize = 0;
    proof {
        assert forall|a: int| 0 <= a < m implies #[trigger] order@[a] < weights@.len() by {
            assert(ord[a] == order@[a] as int);
        }
        assert forall|a: int| 0 <= a < w implies #[trigger] parts@[a]@ =~= Seq::<u32>::empty() by {}
        assert(ord.take(0) =~= Seq::<int>::empty());
        assert(loads@.map_values(|x: u32| x as int) =~= greedy(weights@, ord.take(0), w as nat).0);
        assert(parts@.map_values(|p: Vec<u32>| p@) =~= greedy(weights@, ord.take(0), w as nat).1);
    }
    while t < m
        invariant
            w > 0,
            m == order@.len(),
            ord == order@.map_values(|i: usize| i as int),
            desc_stable(weights@, ord),
            forall|a: int| 0 <= a < m ==> #[trigger] order@[a] < weights@.len(),
            wsum_idx(weights@, ord) == wsum(weights@),
            wsum(weights@) <= u32::MAX,
            t <= m,
            loads@.map_values(|x: u32| x as int) == greedy(weights@, ord.take(t as int), w as nat).0,
            parts@.map_values(|p: Vec<u32>| p@) == greedy(weights@, ord.take(t as int), w as nat).1,
        decreases m - t,
    {
        let (id, wt) = weights[order[t]];
        let ghost lv = loads@.map_values(|x: u32| x as int);
        proof {
            lemma_greedy_shape(weights@, ord.take(t as int), w as nat);
        }
        let mut j: usize = 0;
        let mut c: usize = 1;
        while c < w
            invariant
                w > 0,
                loads@.len() == w,
                lv == loads@.map_values(|x: u32| x as int),
                1 <= c <= w,
                j < c,
                j == argmin_first(lv.take(c as int)),
            decreases w - c,
        {
            proof {
                assert(lv.take(c + 1).drop_last() =~= lv.take(c as int));
                lemma_argmin_first(lv.take(c as int));
            }
            if loads[c] < loads[j] {
                j = c;
            }
            c = c + 1;
        }
        proof {
            assert(lv.take(w as int) =~= lv);
            lemma_argmin_first(lv);
            let tk = ord.take(t + 1);
            assert(tk.drop_last() =~= ord.take(t as int));
            lemma_greedy_shape(weights@, tk, w as nat);
            lemma_wsum_prefix(weights@, ord, t + 1);
            lemma_sum_bound(greedy(weights@, tk, w as nat).0, j as int);
        }
        let ghost pv = parts@;
        parts[j].push(id);
        let nl = loads[j] + wt;
        loads.set(j, nl);
        proof {
            let tk = ord.take(t + 1);
            assert(tk.last() == ord[t as int]);
            assert(loads@.map_values(|x: u32| x as int) =~= greedy(weights@, tk, w as nat).0);
            assert(parts@.map_values(|p: Vec<u32>| p@) =~= greedy(weights@, tk, w as nat).1) by {
                assert forall|a: int| 0 <= a < w implies #[trigger] parts@[a]@ == greedy(weights@, tk, w as nat).1[a] by {
                    if a != j {
                        assert(parts@[a] == pv[a]);
                    }
                }
            }
        }
        t = t + 1;
    }
    let ghost all = parts@.map_values(|p: Vec<u32>| p@);
    let mut res: Vec<Vec<u32>> = Vec::new();
    let mut k: usize = 0;
    proof {
        assert(ord.take(m as int) =~= ord);
        reveal(Seq::filter);
        assert(all.take(0) =~= Seq::<Seq<u32>>::empty());
    }
    while k < parts.len()
        invariant
            k <= parts@.len(),
            all == parts@.map_values(|p: Vec<u32>| p@),
            res@.map_values(|p: Vec<u32>| p@) == nonempty_parts(all.take(k as int)),
        decreases parts@.len() - k,
    {
        proof {
            assert(all.take(k + 1).drop_last() =~= all.take(k as int));
            reveal(Seq::filter);
            assert(all.take(k + 1).last() == all[k as int]);
        }
        if parts[k].len() > 0 {
            res.push(parts[k].clone());
        }
        k = k + 1;
    }
    proof {
        assert(all.take(parts@.len() as int) =~= all);
    }
    res
}

} // verus!
