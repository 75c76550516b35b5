//! Trusted interface to `fixedbitset::FixedBitSet`.
//!
//! A bit set is modelled by the sequence of its bits: `bits_of(b)[i]` is bit
//! `i`, and the sequence's length is the set's length in bits. Each wrapper
//! below makes one call into the crate and states what its source shows that
//! call does to that sequence.

use vstd::prelude::*;
use fixedbitset::FixedBitSet;

verus! {

#[verifier::external_type_specification]
#[verifier::external_body]
pub struct ExFixedBitSet(fixedbitset::FixedBitSet);

/// The bits of a `FixedBitSet`, one entry per bit of its length.
pub uninterp spec fn bits_of(b: FixedBitSet) -> Seq<bool>;

/// No bit of the set's storage past its length is on. The crate's public
/// API can set such bits (`with_capacity_and_blocks`, `as_mut_slice`); the
/// block-wise `union_with` and `is_subset` read them, so their contracts
/// below hold only for clean sets. Every other wrapper here keeps a set
/// clean.
pub uninterp spec fn bits_clean(b: FixedBitSet) -> bool;

/// `FixedBitSet::with_capacity(n)`: `n` bits, all clear.
#[verifier::external_body]
pub(crate) fn bitset_with_capacity(n: usize) -> (res: FixedBitSet)
    ensures
        bits_of(res) == Seq::new(n as nat, |i: int| false),
        bits_clean(res),
{
    FixedBitSet::with_capacity(n)
}

/// `FixedBitSet::len`: the length in bits.
#[verifier::external_body]
pub(crate) fn bitset_len(b: &FixedBitSet) -> (res: usize)
    ensures
        res == bits_of(*b).len(),
{
    b.len()
}

/// `FixedBitSet::contains`: the bit, or `false` past the length.
#[verifier::external_body]
pub(crate) fn bitset_contains(b: &FixedBitSet, i: usize) -> (res: bool)
    ensures
        res == (i < bits_of(*b).len() && bits_of(*b)[i as int]),
{
    b.contains(i)
}

/// `FixedBitSet::insert`: sets bit `i`; the crate panics past the length.
#[verifier::external_body]
pub(crate) fn bitset_insert(b: &mut FixedBitSet, i: usize)
    requires
        i < bits_of(*old(b)).len(),
    ensures
        bits_of(*final(b)) == bits_of(*old(b)).update(i as int, true),
        bits_clean(*old(b)) ==> bits_clean(*final(b)),
{
    b.insert(i)
}

/// `FixedBitSet::put`: sets bit `i` and returns its previous value; the
/// crate panics past the length.
#[verifier::external_body]
pub(crate) fn bitset_put(b: &mut FixedBitSet, i: usize) -> (res: bool)
    requires
        i < bits_of(*old(b)).len(),
    ensures
        res == bits_of(*old(b))[i as int],
        bits_of(*final(b)) == bits_of(*old(b)).update(i as int, true),
        bits_clean(*old(b)) ==> bits_clean(*final(b)),
{
    b.put(i)
}

/// `FixedBitSet::set`: sets bit `i` to `enabled`; the crate panics past the
/// length.
#[verifier::external_body]
pub(crate) fn bitset_set(b: &mut FixedBitSet, i: usize, enabled: bool)
    requires
        i < bits_of(*old(b)).len(),
    ensures
        bits_of(*final(b)) == bits_of(*old(b)).update(i as int, enabled),
        bits_clean(*old(b)) ==> bits_clean(*final(b)),
{
    b.set(i, enabled)
}

/// `FixedBitSet::set_range(.., true)`: every bit set, length unchanged.
#[verifier::external_body]
pub(crate) fn bitset_fill(b: &mut FixedBitSet)
    ensures
        bits_of(*final(b)) == Seq::new(bits_of(*old(b)).len(), |i: int| true),
        bits_clean(*old(b)) ==> bits_clean(*final(b)),
{
    b.set_range(.., true)
}

/// `Clone` for `FixedBitSet`: a copy with the same length and bits.
pub assume_specification[<FixedBitSet as Clone>::clone](b: &FixedBitSet) -> (res: FixedBitSet)
    ensures
        bits_of(res) == bits_of(*b),
        bits_clean(*b) ==> bits_clean(res),
;

/// `FixedBitSet::union_with`: grows to the longer length, then ORs the
/// storage blocks of `other` in; on clean sets that is the union of the bits.
#[verifier::external_body]
pub(crate) fn bitset_union_with(b: &mut FixedBitSet, other: &FixedBitSet)
    requires
        bits_clean(*old(b)),
        bits_clean(*other),
    ensures
        bits_clean(*final(b)),
        bits_of(*final(b)).len() == (if bits_of(*other).len() > bits_of(*old(b)).len() {
            bits_of(*other).len()
        } else {
            bits_of(*old(b)).len()
        }),
        forall|i: int| 0 <= i < bits_of(*final(b)).len() ==> #[trigger] bits_of(*final(b))[i]
            == ((i < bits_of(*old(b)).len() && bits_of(*old(b))[i]) || (i < bits_of(*other).len() && bits_of(*other)[i])),
{
    b.union_with(other)
}

/// `FixedBitSet::is_subset`: compares storage blocks; on clean sets, every
/// set bit of `a` is set in `b`.
#[verifier::external_body]
pub(crate) fn bitset_is_subset(a: &FixedBitSet, b: &FixedBitSet) -> (res: bool)
    requires
        bits_clean(*a),
        bits_clean(*b),
    ensures
        res == (forall|i: int| 0 <= i < bits_of(*a).len() && #[trigger] bits_of(*a)[i]
            ==> i < bits_of(*b).len() && bits_of(*b)[i]),
{
    a.is_subset(b)
}

} // verus!
