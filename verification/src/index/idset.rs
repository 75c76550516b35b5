//! Hash sets of node and function ids (`u32`), as rustc-hash provides them.
//! Each wrapper makes one call; its contract is what std's `HashSet`
//! documents for that call, over the set's contents (`@`).

use vstd::prelude::*;
use rustc_hash::FxHashSet;

verus! {

/// `FxHashSet::default()`: an empty set.
#[verifier::external_body]
pub(crate) fn id_set_new() -> (s: FxHashSet<u32>)
    ensures
        s@ == Set::<u32>::empty(),
{
    FxHashSet::default()
}

/// `HashSet::insert`: adds `k`.
#[verifier::external_body]
pub(crate) fn id_set_insert(s: &mut FxHashSet<u32>, k: u32)
    ensures
        final(s)@ == old(s)@.insert(k),
{
    s.insert(k);
}

} // verus!
