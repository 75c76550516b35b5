//! Text helpers shared by the hashing and matching code: string equality,
//! whitespace tokens, and the FNV-1a byte hash.

use vstd::prelude::*;
use vstd::utf8::{encode_utf8, encode_utf8_decode_utf8};
use vstd::arithmetic::div_mod::{lemma_mul_mod_noop_left, lemma_mul_mod_noop_right, lemma_small_mod};

verus! {

/// `char::is_whitespace`: the Unicode `White_Space` property.
pub open spec fn is_ws(c: char) -> bool {
    let u = c as u32;
    (0x09 <= u && u <= 0x0D) || u == 0x20 || u == 0x85 || u == 0xA0 || u == 0x1680
        || (0x2000 <= u && u <= 0x200A) || u == 0x2028 || u == 0x2029 || u == 0x202F
        || u == 0x205F || u == 0x3000
}

/// The maximal runs of non-whitespace characters, in order: the tokens that
/// `str::split_whitespace` yields.
pub open spec fn ws_tokens(s: Seq<char>) -> Seq<Seq<char>>
    decreases s.len(),
{
    if s.len() == 0 {
        Seq::empty()
    } else {
        let prev = ws_tokens(s.drop_last());
        let c = s.last();
        if is_ws(c) {
            prev
        } else if s.len() >= 2 && !is_ws(s[s.len() - 2]) && prev.len() > 0 {
            prev.update(prev.len() - 1, prev.last().push(c))
        } else {
            prev.push(seq![c])
        }
    }
}

/// `str::split_whitespace`, collected: the whitespace-separated tokens.
#[verifier::external_body]
pub fn split_ws(text: &str) -> (res: Vec<&str>)
    ensures
        res@.len() == ws_tokens(text@).len(),
        forall|i: int| 0 <= i < res@.len() ==> (#[trigger] res@[i])@ == ws_tokens(text@)[i],
{
    text.split_whitespace().collect()
}

/// Two strings are equal exactly when their UTF-8 bytes are.
pub proof fn lemma_bytes_determine_str(a: &str, b: &str)
    requires
        encode_utf8(a@) == encode_utf8(b@),
    ensures
        a@ == b@,
{
    encode_utf8_decode_utf8(a@);
    encode_utf8_decode_utf8(b@);
}

/// String equality, by bytes.
pub fn str_eq(a: &str, b: &str) -> (res: bool)
    ensures
        res == (a@ == b@),
{
    let x = a.as_bytes();
    let y = b.as_bytes();
    if x.len() != y.len() {
        return false;
    }
    let mut i: usize = 0;
    while i < x.len()
        invariant
            x@ == encode_utf8(a@),
            y@ == encode_utf8(b@),
            x@.len() == y@.len(),
            i <= x@.len(),
            forall|k: int| 0 <= k < i ==> x@[k] == y@[k],
        decreases x@.len() - i,
    {
        if x[i] != y[i] {
            return false;
        }
        i = i + 1;
    }
    proof {
        assert(x@ =~= y@);
        lemma_bytes_determine_str(a, b);
    }
    true
}

/// FNV-1a over a byte string.
pub open spec fn fnv1a(bytes: Seq<u8>) -> u64
    decreases bytes.len(),
{
    if bytes.len() == 0 {
        0xcbf29ce484222325u64
    } else {
        (fnv1a(bytes.drop_last()) ^ (bytes.last() as u64)).wrapping_mul(0x100000001b3u64)
    }
}

/// The FNV-1a hash of a string's UTF-8 bytes.
pub fn hash_str(s: &str) -> (h: u64)
    ensures
        h == fnv1a(encode_utf8(s@)),
{
    let bytes = s.as_bytes();
    let mut h: u64 = 0xcbf29ce484222325u64;
    let mut i: usize = 0;
    while i < bytes.len()
        invariant
            bytes@ == encode_utf8(s@),
            i <= bytes@.len(),
            h == fnv1a(bytes@.take(i as int)),
        decreases bytes@.len() - i,
    {
        proof {
            assert(bytes@.take(i + 1).drop_last() =~= bytes@.take(i as int));
        }
        h = (h ^ (bytes[i] as u64)).wrapping_mul(0x100000001b3u64);
        i = i + 1;
    }
    proof {
        assert(bytes@.take(bytes@.len() as int) =~= bytes@);
    }
    h
}

/// Multiplication by the FNV prime is invertible modulo 2^64: the prime is
/// odd, with inverse 14886173955864302971.
pub proof fn lemma_fnv_prime_mul_injective(a: u64, b: u64)
    requires
        a.wrapping_mul(0x100000001b3u64) == b.wrapping_mul(0x100000001b3u64),
    ensures
        a == b,
{
    let m: int = 0x1_0000_0000_0000_0000;
    let p: int = 0x100000001b3;
    let q: int = 14886173955864302971;
    assert(a.wrapping_mul(0x100000001b3u64) as int == (a as int * p) % m);
    assert(b.wrapping_mul(0x100000001b3u64) as int == (b as int * p) % m);
    assert((p * q) % m == 1);
    lemma_mul_mod_noop_left(a as int * p, q, m);
    lemma_mul_mod_noop_left(b as int * p, q, m);
    assert((a as int * p) * q == a as int * (p * q)) by (nonlinear_arith);
    assert((b as int * p) * q == b as int * (p * q)) by (nonlinear_arith);
    lemma_mul_mod_noop_right(a as int, p * q, m);
    lemma_mul_mod_noop_right(b as int, p * q, m);
    lemma_small_mod(a as nat, m as nat);
    lemma_small_mod(b as nat, m as nat);
}

/// FNV-1a carries every earlier byte into the hash: byte strings that end
/// alike hash alike only if the bytes before that common end do.
pub proof fn lemma_fnv1a_keeps_prefix(a: Seq<u8>, b: Seq<u8>, c: Seq<u8>)
    requires
        fnv1a(a + c) == fnv1a(b + c),
    ensures
        fnv1a(a) == fnv1a(b),
    decreases c.len(),
{
    if c.len() == 0 {
        assert(a + c =~= a);
        assert(b + c =~= b);
    } else {
        let d = c.drop_last();
        let x = c.last() as u64;
        assert((a + c).drop_last() =~= a + d);
        assert((b + c).drop_last() =~= b + d);
        assert((a + c).last() == c.last() && (b + c).last() == c.last());
        let (h1, h2) = (fnv1a(a + d), fnv1a(b + d));
        lemma_fnv_prime_mul_injective(h1 ^ x, h2 ^ x);
        assert(h1 ^ x == h2 ^ x ==> h1 == h2) by (bit_vector);
        lemma_fnv1a_keeps_prefix(a, b, d);
    }
}

/// FNV-1a tells apart any two byte strings that differ in exactly one byte.
pub proof fn lemma_fnv1a_one_byte_apart(a: Seq<u8>, x: u8, y: u8, c: Seq<u8>)
    requires
        x != y,
    ensures
        fnv1a(a.push(x) + c) != fnv1a(a.push(y) + c),
{
    if fnv1a(a.push(x) + c) == fnv1a(a.push(y) + c) {
        lemma_fnv1a_keeps_prefix(a.push(x), a.push(y), c);
        assert(a.push(x).drop_last() =~= a && a.push(y).drop_last() =~= a);
        let h = fnv1a(a);
        let (u, v) = (x as u64, y as u64);
        lemma_fnv_prime_mul_injective(h ^ u, h ^ v);
        assert(h ^ u == h ^ v ==> u == v) by (bit_vector);
    }
}

} // verus!
