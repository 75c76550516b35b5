//! Belady "next use" over an emission of chains, and the eviction choice it
//! implies.

use vstd::prelude::*;

verus! {

/// The first chain after `i` whose path holds `block`, if any.
pub open spec fn next_user(paths: Seq<Seq<u32>>, i: int, block: u32) -> Option<usize> {
    if exists|k: int| i < k < paths.len() && paths[k].contains(block) {
        Some((choose|k: int| i < k < paths.len() && paths[k].contains(block)
            && forall|m: int| i < m < k ==> !paths[m].contains(block)) as usize)
    } else {
        None
    }
}

/// The view of each path.
pub open spec fn path_views(paths: Seq<Vec<u32>>) -> Seq<Seq<u32>> {
    Seq::new(paths.len(), |i: int| paths[i]@)
}

fn holds(path: &Vec<u32>, block: u32) -> (res: bool)
    ensures
        res == path@.contains(block),
{
    let mut i: usize = 0;
    while i < path.len()
        invariant
            i <= path@.len(),
            forall|k: int| 0 <= k < i ==> path@[k] != block,
        decreases path@.len() - i,
    {
        if path[i] == block {
            return true;
        }
        i = i + 1;
    }
    false
}

/// For chain `i` and each block `paths[i][j]` of its path, the index of the
/// next chain `k > i` whose path reuses that block, or `None`.
pub fn next_use(paths: &[Vec<u32>]) -> (res: Vec<Vec<Option<usize>>>)
    ensures
        res@.len() == paths@.len(),
        forall|i: int| 0 <= i < paths@.len() ==> (#[trigger] res@[i])@.len() == paths@[i]@.len(),
        forall|i: int, j: int| 0 <= i < paths@.len() && 0 <= j < paths@[i]@.len() ==>
            (#[trigger] res@[i]@[j]) == next_user(path_views(paths@), i, paths@[i]@[j]),
{
    let n = paths.len();
    let ghost pv = path_views(paths@);
    let mut out: Vec<Vec<Option<usize>>> = Vec::new();
    let mut i: usize = 0;
    while i < n
        invariant
            n == paths@.len(),
            pv == path_views(paths@),
            i <= n,
            out@.len() == i,
            forall|a: int| 0 <= a < i ==> (#[trigger] out@[a])@.len() == paths@[a]@.len(),
            forall|a: int, j: int| 0 <= a < i && 0 <= j < paths@[a]@.len() ==>
                (#[trigger] out@[a]@[j]) == next_user(pv, a, paths@[a]@[j]),
        decreases n - i,
    {
        let path = &paths[i];
        let mut row: Vec<Option<usize>> = Vec::new();
        let mut j: usize = 0;
        while j < path.len()
            invariant
                n == paths@.len(),
                pv == path_views(paths@),
                i < n,
                *path == paths@[i as int],
                j <= path@.len(),
                row@.len() == j,
                forall|c: int| 0 <= c < j ==> (#[trigger] row@[c]) == next_user(pv, i as int, path@[c]),
            decreases path@.len() - j,
        {
            let block = path[j];
            let mut nxt: Option<usize> = None;
            let mut k: usize = i + 1;
            while k < n
                invariant_except_break
                    nxt is None,
                invariant
                    n == paths@.len(),
                    pv == path_views(paths@),
                    i < k <= n,
                    forall|m: int| i < m < k ==> !(#[trigger] pv[m]).contains(block),
                ensures
                    match nxt {
                        Some(kk) => i < kk < n && pv[kk as int].contains(block)
                            && forall|m: int| i < m < kk ==> !(#[trigger] pv[m]).contains(block),
                        None => forall|m: int| i < m < n ==> !(#[trigger] pv[m]).contains(block),
                    },
                decreases n - k,
            {
                if holds(&paths[k], block) {
                    nxt = Some(k);
                    break;
                }
                k = k + 1;
            }
            proof {
                let b = block;
                if exists|kk: int| i < kk < pv.len() && pv[kk].contains(b) {
                    let c = choose|kk: int| i < kk < pv.len() && pv[kk].contains(b)
                        && forall|m: int| i < m < kk ==> !pv[m].contains(b);
                    let kk = nxt.unwrap() as int;
                    assert(c == kk) by {
                        if c < kk {
                            assert(!pv[c].contains(b));
                        }
                        if kk < c {
                            assert(!pv[kk].contains(b));
                        }
                    }
                }
            }
            row.push(nxt);
            j = j + 1;
        }
        out.push(row);
        i = i + 1;
    }
    out
}

/// The eviction key of a next-use: never used again counts as furthest.
pub open spec fn evict_key(nu: Option<usize>) -> int {
    match nu {
        Some(k) => k as int,
        None => usize::MAX as int,
    }
}

/// Eviction keys order next uses by position, and a block never used again
/// ranks at or beyond any block that is.
pub proof fn lemma_evict_key_order(a: usize, b: usize)
    ensures
        a < b ==> evict_key(Some(a)) < evict_key(Some(b)),
        evict_key(Some(a)) <= evict_key(None),
{
}

/// When some resident block is never used again, the chosen block is never
/// used again either, or its next use is the last position there is.
pub proof fn lemma_never_used_again_is_evicted(resident: Seq<(u32, Option<usize>)>, i: int, k: int)
    requires
        0 <= i < resident.len(),
        0 <= k < resident.len(),
        resident[k].1 is None,
        forall|j: int| 0 <= j < resident.len() ==> evict_key(#[trigger] resident[j].1) <= evict_key(resident[i].1),
    ensures
        resident[i].1 is None || resident[i].1 == Some(usize::MAX),
{
    assert(evict_key(resident[k].1) <= evict_key(resident[i].1));
}

/// Among the resident `(block, next_use)` pairs, the block whose next use is
/// furthest (`None` counts as furthest); on a tie the later pair wins.
/// `None` when nothing is resident.
pub fn belady_evict_candidate(resident: &[(u32, Option<usize>)]) -> (res: Option<u32>)
    ensures
        match res {
            None => resident@.len() == 0,
            Some(b) => exists|i: int| 0 <= i < resident@.len() && (#[trigger] resident@[i]).0 == b
                && (forall|j: int| 0 <= j < resident@.len() ==> evict_key(#[trigger] resident@[j].1) <= evict_key(resident@[i].1))
                && (forall|j: int| i < j < resident@.len() ==> evict_key(#[trigger] resident@[j].1) < evict_key(resident@[i].1)),
        },
{
    if resident.len() == 0 {
        return None;
    }
    let mut best: usize = 0;
    let mut best_key: usize = match resident[0].1 {
        Some(k) => k,
        None => usize::MAX,
    };
    let mut i: usize = 1;
    while i < resident.len()
        invariant
            1 <= i <= resident@.len(),
            best < i,
            best_key == evict_key(resident@[best as int].1),
            forall|j: int| 0 <= j < i ==> evict_key(#[trigger] resident@[j].1) <= best_key,
            forall|j: int| best < j < i ==> evict_key(#[trigger] resident@[j].1) < best_key,
        decreases resident@.len() - i,
    {
        let key = match resident[i].1 {
            Some(k) => k,
            None => usize::MAX,
        };
        if key >= best_key {
            best = i;
            best_key = key;
        }
        i = i + 1;
    }
    Some(resident[best].0)
}

} // verus!
