//! The Belady MIN hint stream over a block schedule: for each position, the
//! next position that uses the same block.

use vstd::prelude::*;

verus! {

/// The next index after `i` holding `s[i]`, or `usize::MAX` if there is none.
pub open spec fn next_same(s: Seq<u64>, i: int) -> int {
    if exists|j: int| i < j < s.len() && s[j] == s[i] {
        choose|j: int| i < j < s.len() && s[j] == s[i] && forall|k: int| i < k < j ==> s[k] != s[i]
    } else {
        usize::MAX as int
    }
}

/// The first index in `(i, hi)` holding `h`, if any.
fn first_from(s: &[u64], i: usize, h: u64) -> (res: Option<usize>)
    requires
        i < s@.len(),
    ensures
        match res {
            Some(j) => i < j < s@.len() && s@[j as int] == h && forall|k: int| i < k < j ==> s@[k] != h,
            None => forall|k: int| i < k < s@.len() ==> s@[k] != h,
        },
{
    let len = s.len();
    let mut j: usize = i + 1;
    while j < len
        invariant
            len == s@.len(),
            i < j <= s@.len(),
            forall|k: int| i < k < j ==> s@[k] != h,
        decreases s@.len() - j,
    {
        if s[j] == h {
            return Some(j);
        }
        j = j + 1;
    }
    None
}

/// For each position `i` of `schedule`, the pair of its block hash and the
/// next index `j > i` with the same hash (`usize::MAX` if never reused).
pub fn belady_hints(schedule: &[u64]) -> (res: Vec<(u64, usize)>)
    ensures
        res@.len() == schedule@.len(),
        forall|i: int| 0 <= i < schedule@.len() ==> (#[trigger] res@[i]).0 == schedule@[i]
            && res@[i].1 == next_same(schedule@, i),
{
    let n = schedule.len();
    let mut out: Vec<(u64, usize)> = Vec::with_capacity(n);
    let mut i: usize = 0;
    while i < n
        invariant
            n == schedule@.len(),
            i <= n,
            out@.len() == i,
            forall|k: int| 0 <= k < i ==> (#[trigger] out@[k]).0 == schedule@[k]
                && out@[k].1 == next_same(schedule@, k),
        decreases n - i,
    {
        let h = schedule[i];
        let next = match first_from(schedule, i, h) {
            Some(j) => j,
            None => usize::MAX,
        };
        proof {
            let s = schedule@;
            if exists|j: int| i < j < s.len() && s[j] == s[i as int] {
                let c = choose|j: int| i < j < s.len() && s[j] == s[i as int] && forall|k: int| i < k < j ==> s[k] != s[i as int];
                assert(i < next < s.len() && s[next as int] == h && forall|k: int| i < k < next ==> s[k] != h);
                assert(c == next as int) by {
                    if c < next {
                        assert(s[c] != h);
                    }
                    if next < c {
                        assert(s[next as int] != h);
                    }
                }
            }
        }
        out.push((h, next));
        i = i + 1;
    }
    out
}

} // verus!
