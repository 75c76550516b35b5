//! Positional polynomials: a sequence of 64-bit digits read in a base, most
//! significant first, and why the wrapping Horner steps the hashes take
//! compute exactly that value modulo 2^64.

use vstd::prelude::*;
use vstd::arithmetic::power::pow;
use vstd::arithmetic::div_mod::{
    lemma_add_mod_noop, lemma_mod_equivalence, lemma_mod_sub_multiples_vanish, lemma_mul_mod_noop_left,
    lemma_mul_mod_noop_right, lemma_small_mod,
};
use vstd::arithmetic::power::{lemma1_pow, lemma_pow_distributes, lemma_pow_mod_noop};

verus! {

/// 2^64.
pub open spec fn two64() -> int {
    0x1_0000_0000_0000_0000
}

/// `Σ_k d[k] · b^(|d| - 1 - k)`: the digits `d`, most significant first,
/// read in base `b`.
pub open spec fn poly(d: Seq<u64>, b: int) -> int
    decreases d.len(),
{
    if d.len() == 0 {
        0
    } else {
        d[0] * pow(b, (d.len() - 1) as nat) + poly(d.drop_first(), b)
    }
}

/// Appending a digit shifts the value one place and adds the digit.
pub proof fn lemma_poly_push(d: Seq<u64>, x: u64, b: int)
    ensures
        poly(d.push(x), b) == poly(d, b) * b + x,
    decreases d.len(),
{
    if d.len() == 0 {
        assert(d.push(x).drop_first() =~= Seq::<u64>::empty());
        reveal(pow);
        assert(pow(b, 0) == 1);
        assert(d.push(x)[0] == x);
        assert(poly(d.push(x), b) == x * pow(b, 0) + poly(d.push(x).drop_first(), b));
    } else {
        let t = d.drop_first();
        lemma_poly_push(t, x, b);
        assert(d.push(x).drop_first() =~= t.push(x));
        let n = d.len();
        let p = pow(b, (n - 1) as nat);
        reveal(pow);
        assert(pow(b, n as nat) == b * p);
        let d0 = d[0] as int;
        let pt = poly(t, b);
        assert(d.push(x)[0] == d[0]);
        assert(poly(d.push(x), b) == d0 * pow(b, n as nat) + poly(t.push(x), b));
        assert(poly(d, b) == d0 * p + pt);
        assert(d0 * (b * p) + (pt * b + x) == (d0 * p + pt) * b + x) by (nonlinear_arith);
    }
}

/// One wrapping Horner step `h · b + x` on a value known modulo 2^64 gives
/// the extended value modulo 2^64.
pub proof fn lemma_horner_step(h: u64, d: Seq<u64>, x: u64, b: u64)
    requires
        poly(d, b as int) >= 0,
        h as int == poly(d, b as int) % two64(),
    ensures
        h.wrapping_mul(b).wrapping_add(x) as int == poly(d.push(x), b as int) % two64(),
{
    let m = two64();
    let pv = poly(d, b as int);
    lemma_poly_push(d, x, b as int);
    let y = h.wrapping_mul(b);
    assert(y as int == (h as int * b as int) % m);
    lemma_mul_mod_noop_left(pv, b as int, m);
    assert(y as int == (pv * b) % m);
    lemma_small_mod(x as nat, m as nat);
    lemma_add_mod_noop(pv * b, x as int, m);
    assert(((y as int) + (x as int)) % m == (pv * b + x) % m);
    let z = y.wrapping_add(x);
    if y as int + x as int > u64::MAX {
        assert(z as int == y as int + x as int - m);
        assert((y as int + x as int) % m == y as int + x as int - m) by {
            lemma_small_mod((y as int + x as int - m) as nat, m as nat);
            vstd::arithmetic::div_mod::lemma_mod_sub_multiples_vanish(y as int + x as int, m);
        }
    } else {
        assert(z as int == y as int + x as int);
        lemma_small_mod((y as int + x as int) as nat, m as nat);
    }
}

/// A positional value over non-negative digits and base is non-negative.
pub proof fn lemma_poly_nonneg(d: Seq<u64>, b: int)
    requires
        b > 0,
    ensures
        poly(d, b) >= 0,
    decreases d.len(),
{
    if d.len() > 0 {
        lemma_poly_nonneg(d.drop_first(), b);
        vstd::arithmetic::power::lemma_pow_positive(b, (d.len() - 1) as nat);
        assert(d[0] * pow(b, (d.len() - 1) as nat) >= 0) by (nonlinear_arith)
            requires
                pow(b, (d.len() - 1) as nat) >= 0;
    }
}

/// Changing one digit changes the value by the difference of the digits
/// times that digit's place value.
pub proof fn lemma_poly_update(d: Seq<u64>, k: int, x: u64, b: int)
    requires
        0 <= k < d.len(),
    ensures
        poly(d.update(k, x), b) == poly(d, b) + (x - d[k]) * pow(b, (d.len() - 1 - k) as nat),
    decreases d.len(),
{
    let u = d.update(k, x);
    let n = d.len();
    let p = pow(b, (n - 1) as nat);
    if k == 0 {
        assert(u.drop_first() =~= d.drop_first());
        assert(x * p - d[0] * p == (x - d[0]) * p) by (nonlinear_arith);
    } else {
        let t = d.drop_first();
        assert(u.drop_first() =~= t.update(k - 1, x));
        lemma_poly_update(t, k - 1, x, b);
        assert(t[k - 1] == d[k]);
    }
}

/// Scaling a non-zero value of magnitude below 2^64 by a unit modulo 2^64
/// leaves it non-zero modulo 2^64.
proof fn lemma_unit_scale_nonzero(v: int, p: int, q: int)
    requires
        (p * q) % two64() == 1,
        -two64() < v < two64(),
        v != 0,
    ensures
        (v * p) % two64() != 0,
{
    let m = two64();
    if (v * p) % m == 0 {
        lemma_mul_mod_noop_left(v * p, q, m);
        assert((v * p) * q == v * (p * q)) by (nonlinear_arith);
        lemma_mul_mod_noop_right(v, p * q, m);
        assert(v % m == 0);
        if v > 0 {
            lemma_small_mod(v as nat, m as nat);
        } else {
            lemma_small_mod((v + m) as nat, m as nat);
            lemma_mod_sub_multiples_vanish(v + m, m);
        }
    }
}

/// Any power of a unit modulo 2^64 is a unit, with the same power of the
/// inverse as its inverse.
proof fn lemma_power_unit(b: int, inv: int, n: nat)
    requires
        (b * inv) % two64() == 1,
    ensures
        (pow(b, n) * pow(inv, n)) % two64() == 1,
{
    let m = two64();
    lemma_pow_distributes(b, inv, n);
    lemma_pow_mod_noop(b * inv, n, m);
    lemma1_pow(n);
    lemma_small_mod(1, m as nat);
}

/// In a base that is a unit modulo 2^64, two digit strings of one length
/// that differ in exactly one digit have different values modulo 2^64.
pub proof fn lemma_poly_one_digit_apart(d: Seq<u64>, e: Seq<u64>, k: int, b: int, inv: int)
    requires
        d.len() == e.len(),
        0 <= k < d.len(),
        d[k] != e[k],
        forall|j: int| 0 <= j < d.len() && j != k ==> d[j] == e[j],
        (b * inv) % two64() == 1,
    ensures
        poly(d, b) % two64() != poly(e, b) % two64(),
{
    let m = two64();
    let n = (d.len() - 1 - k) as nat;
    assert(e =~= d.update(k, e[k]));
    lemma_poly_update(d, k, e[k], b);
    let v = e[k] - d[k];
    lemma_power_unit(b, inv, n);
    lemma_unit_scale_nonzero(v, pow(b, n), pow(inv, n));
    lemma_mod_equivalence(poly(e, b), poly(d, b), m);
    assert(poly(e, b) - poly(d, b) == v * pow(b, n));
}

} // verus!
