//! MinHash signatures from `k` linear hash functions, and the token hash
//! they are usually fed with.

use vstd::prelude::*;
use vstd::utf8::encode_utf8;
use crate::text::lemma_fnv_prime_mul_injective;
use crate::stat::union_find::{lemma_mono_trans, lemma_root, lemma_root_union, mono, root, same, uf_find, uf_ok};
use crate::stat::lsh::{
    bucket_get, bucket_keys, bucket_map_new, bucket_push, buckets_ok, in_bucket, lemma_buckets_push, strict_usize,
};

verus! {

/// The modulus of the linear hash functions.
pub const MH_PRIME: u64 = 0xFFFF_FFFF_FFFF_FFC5u64;

/// Deterministic splitmix64.
pub open spec fn splitmix_spec(z: u64) -> u64 {
    let z = z.wrapping_add(0x9E37_79B9_7F4A_7C15u64);
    let z = (z ^ (z >> 30u64)).wrapping_mul(0xBF58_476D_1CE4_E5B9u64);
    let z = (z ^ (z >> 27u64)).wrapping_mul(0x94D0_49BB_1331_11EBu64);
    z ^ (z >> 31u64)
}

pub fn splitmix(z: u64) -> (r: u64)
    ensures
        r == splitmix_spec(z),
{
    let z = z.wrapping_add(0x9E37_79B9_7F4A_7C15u64);
    let z = (z ^ (z >> 30u64)).wrapping_mul(0xBF58_476D_1CE4_E5B9u64);
    let z = (z ^ (z >> 27u64)).wrapping_mul(0x94D0_49BB_1331_11EBu64);
    z ^ (z >> 31u64)
}

/// Hash function `j`, `h_j(x) = (a_j · x + b_j) mod prime`, applied to the
/// shingle `s`.
pub open spec fn lin_hash(j: u64, s: u64) -> u64 {
    let a = splitmix_spec(j.wrapping_mul(0x9E37_79B9_7F4A_7C15u64) ^ 0xA5A5u64);
    let b = splitmix_spec(j.wrapping_add(0xC0FFEEu64));
    a.wrapping_mul(s).wrapping_add(b) % MH_PRIME
}

/// The least `lin_hash(j, ..)` over the first shingles, from `u64::MAX`.
pub open spec fn lin_min(shingles: Seq<u64>, j: u64) -> u64
    decreases shingles.len(),
{
    if shingles.len() == 0 {
        u64::MAX
    } else {
        let m = lin_min(shingles.drop_last(), j);
        let h = lin_hash(j, shingles.last());
        if h < m { h } else { m }
    }
}

/// MinHash signature of length `k`: entry `j` is the least `h_j` over the
/// shingles (`u64::MAX` when there are none).
pub fn minhash(shingles: &[u64], k: usize) -> (sig: Vec<u64>)
    ensures
        sig@.len() == k,
        forall|j: int| 0 <= j < k ==> #[trigger] sig@[j] == lin_min(shingles@, j as u64),
{
    let mut sig: Vec<u64> = vec![u64::MAX; k];
    proof {
        assert forall|j: int| 0 <= j < k implies #[trigger] sig@[j] == lin_min(shingles@.take(0), j as u64) by {
            assert(shingles@.take(0).len() == 0);
        }
    }
    let mut i: usize = 0;
    while i < shingles.len()
        invariant
            i <= shingles@.len(),
            sig@.len() == k,
            forall|j: int| 0 <= j < k ==> #[trigger] sig@[j] == lin_min(shingles@.take(i as int), j as u64),
        decreases shingles@.len() - i,
    {
        let s = shingles[i];
        let ghost before = sig@;
        let mut j: usize = 0;
        while j < k
            invariant
                i < shingles@.len(),
                s == shingles@[i as int],
                sig@.len() == k,
                j <= k,
                forall|c: int| j <= c < k ==> #[trigger] sig@[c] == before[c],
                forall|c: int| 0 <= c < j ==> #[trigger] sig@[c] == lin_min(shingles@.take(i + 1), c as u64),
                forall|c: int| 0 <= c < k ==> #[trigger] before[c] == lin_min(shingles@.take(i as int), c as u64),
            decreases k - j,
        {
            let a = splitmix((j as u64).wrapping_mul(0x9E37_79B9_7F4A_7C15u64) ^ 0xA5A5u64);
            let b = splitmix((j as u64).wrapping_add(0xC0FFEEu64));
            let h = a.wrapping_mul(s).wrapping_add(b) % MH_PRIME;
            proof {
                let t = shingles@.take(i + 1);
                assert(t.drop_last() =~= shingles@.take(i as int));
                assert(t.last() == s);
                assert(h == lin_hash(j as u64, s));
            }
            if h < sig[j] {
                sig.set(j, h);
            }
            j = j + 1;
        }
        i = i + 1;
    }
    proof {
        assert(shingles@.take(shingles@.len() as int) =~= shingles@);
    }
    sig
}

/// The token hash: an FNV-style walk over the bytes, never `u64::MAX`
/// (which stands for "no shingle").
pub open spec fn token_walk(bytes: Seq<u8>) -> u64
    decreases bytes.len(),
{
    if bytes.len() == 0 {
        0xCB_F2_9C_E4_84_22_FE_70u64
    } else {
        let b = bytes.last() as u64;
        (token_walk(bytes.drop_last()) ^ b).wrapping_mul(0x100_0000_01B3u64).wrapping_add(b)
    }
}

/// The token walk carries every earlier byte into the hash: byte strings
/// that end alike hash alike only if the bytes before that common end do.
pub proof fn lemma_token_walk_keeps_prefix(a: Seq<u8>, b: Seq<u8>, c: Seq<u8>)
    requires
        token_walk(a + c) == token_walk(b + c),
    ensures
        token_walk(a) == token_walk(b),
    decreases c.len(),
{
    if c.len() == 0 {
        assert(a + c =~= a);
        assert(b + c =~= b);
    } else {
        let x = c.last() as u64;
        let d = c.drop_last();
        assert((a + c).drop_last() =~= a + d);
        assert((b + c).drop_last() =~= b + d);
        assert((a + c).last() == c.last() && (b + c).last() == c.last());
        lemma_walk_step_injective(token_walk(a + d), token_walk(b + d), x);
        lemma_token_walk_keeps_prefix(a, b, d);
    }
}

/// Hash a token-shingle string to a `u64` other than `u64::MAX`.
pub fn shingle_hash(token: &str) -> (h: u64)
    ensures
        h == if token_walk(encode_utf8(token@)) == u64::MAX { 1 } else { token_walk(encode_utf8(token@)) },
{
    let bytes = token.as_bytes();
    let mut h: u64 = 0xCB_F2_9C_E4_84_22_FE_70u64;
    let mut i: usize = 0;
    while i < bytes.len()
        invariant
            bytes@ == encode_utf8(token@),
            i <= bytes@.len(),
            h == token_walk(bytes@.take(i as int)),
        decreases bytes@.len() - i,
    {
        proof {
            assert(bytes@.take(i + 1).drop_last() =~= bytes@.take(i as int));
        }
        let b = bytes[i] as u64;
        h = h ^ b;
        h = h.wrapping_mul(0x100_0000_01B3u64).wrapping_add(b);
        i = i + 1;
    }
    proof {
        assert(bytes@.take(bytes@.len() as int) =~= bytes@);
    }
    if h == u64::MAX {
        1
    } else {
        h
    }
}

/// `lin_min` is the least hash over the shingles: no shingle hashes below
/// it, and it is `u64::MAX` or the hash of one of them.
proof fn lemma_lin_min(shingles: Seq<u64>, j: u64)
    ensures
        forall|k: int| 0 <= k < shingles.len() ==> lin_min(shingles, j) <= #[trigger] lin_hash(j, shingles[k]),
        lin_min(shingles, j) == u64::MAX || exists|k: int| 0 <= k < shingles.len()
            && lin_min(shingles, j) == #[trigger] lin_hash(j, shingles[k]),
    decreases shingles.len(),
{
    if shingles.len() > 0 {
        let t = shingles.drop_last();
        lemma_lin_min(t, j);
        assert forall|k: int| 0 <= k < shingles.len() implies lin_min(shingles, j) <= #[trigger] lin_hash(j, shingles[k]) by {
            if k < t.len() {
                assert(shingles[k] == t[k]);
                assert(lin_min(t, j) <= lin_hash(j, t[k]));
            }
        }
        if lin_min(shingles, j) != u64::MAX {
            if lin_hash(j, shingles.last()) < lin_min(t, j) {
                assert(lin_min(shingles, j) == lin_hash(j, shingles[shingles.len() - 1]));
            } else {
                let k = choose|k: int| 0 <= k < t.len() && lin_min(t, j) == #[trigger] lin_hash(j, t[k]);
                assert(shingles[k] == t[k]);
            }
        }
    }
}

/// A MinHash signature depends on the set of shingles alone: two shingle
/// lists with the same elements, in any order and with any repeats, have
/// the same signature entries.
pub proof fn lemma_minhash_of_set(a: Seq<u64>, b: Seq<u64>, j: u64)
    requires
        a.to_set() == b.to_set(),
    ensures
        lin_min(a, j) == lin_min(b, j),
{
    lemma_lin_min(a, j);
    lemma_lin_min(b, j);
    assert forall|x: u64| a.contains(x) <==> b.contains(x) by {
        assert(a.to_set().contains(x) <==> a.contains(x));
        assert(b.to_set().contains(x) <==> b.contains(x));
    }
    if lin_min(a, j) != u64::MAX {
        let k = choose|k: int| 0 <= k < a.len() && lin_min(a, j) == #[trigger] lin_hash(j, a[k]);
        assert(a.contains(a[k]));
        let l = choose|l: int| 0 <= l < b.len() && b[l] == a[k];
        assert(lin_min(b, j) <= lin_hash(j, b[l]));
    }
    if lin_min(b, j) != u64::MAX {
        let k = choose|k: int| 0 <= k < b.len() && lin_min(b, j) == #[trigger] lin_hash(j, b[k]);
        assert(b.contains(b[k]));
        let l = choose|l: int| 0 <= l < a.len() && a[l] == b[k];
        assert(lin_min(a, j) <= lin_hash(j, a[l]));
    }
}

// ---------------------------------------------------------------------------
// LSH banding: the pairs of signatures that agree on some band.

/// The band hash: the same FNV-style walk, over the rows of one band.
pub open spec fn band_walk(rows: Seq<u64>) -> u64
    decreases rows.len(),
{
    if rows.len() == 0 {
        0xCB_F2_9C_E4_84_22_FE_70u64
    } else {
        let x = rows.last();
        (band_walk(rows.drop_last()) ^ x).wrapping_mul(0x100_0000_01B3u64).wrapping_add(x)
    }
}

/// One step of the FNV-style walk determines the hash it started from:
/// xor with `x` and multiplication by the odd FNV prime are both invertible
/// modulo 2^64, and so is adding `x`.
proof fn lemma_walk_step_injective(h1: u64, h2: u64, x: u64)
    requires
        (h1 ^ x).wrapping_mul(0x100_0000_01B3u64).wrapping_add(x) == (h2 ^ x).wrapping_mul(0x100_0000_01B3u64).wrapping_add(x),
    ensures
        h1 == h2,
{
    let a = h1 ^ x;
    let b = h2 ^ x;
    let u = a.wrapping_mul(0x100_0000_01B3u64);
    let v = b.wrapping_mul(0x100_0000_01B3u64);
    assert(u.wrapping_add(x) == v.wrapping_add(x) ==> u == v) by (bit_vector);
    lemma_fnv_prime_mul_injective(a, b);
    assert(h1 ^ x == h2 ^ x ==> h1 == h2) by (bit_vector);
}

/// The band walk carries every earlier row into the hash: row lists that
/// end alike hash alike only if the rows before that common end do.
pub proof fn lemma_band_walk_keeps_prefix(a: Seq<u64>, b: Seq<u64>, c: Seq<u64>)
    requires
        band_walk(a + c) == band_walk(b + c),
    ensures
        band_walk(a) == band_walk(b),
    decreases c.len(),
{
    if c.len() == 0 {
        assert(a + c =~= a);
        assert(b + c =~= b);
    } else {
        let x = c.last();
        let d = c.drop_last();
        assert((a + c).drop_last() =~= a + d);
        assert((b + c).drop_last() =~= b + d);
        assert((a + c).last() == x && (b + c).last() == x);
        lemma_walk_step_injective(band_walk(a + d), band_walk(b + d), x);
        lemma_band_walk_keeps_prefix(a, b, d);
    }
}

/// The bucket key of band `band` (rows `band·r .. band·r + r`).
pub open spec fn cand_key(sig: Seq<u64>, band: int, r: int) -> u64 {
    band_walk(sig.subrange(band * r, band * r + r))
}

/// Signatures `i` and `j` both have the `r·b` rows that banding reads, and
/// share the bucket of band `band`.
pub open spec fn meet_at(sigs: Seq<Vec<u64>>, r: int, b: int, i: int, j: int, band: int) -> bool {
    &&& sigs[i]@.len() >= r * b
    &&& sigs[j]@.len() >= r * b
    &&& cand_key(sigs[i]@, band, r) == cand_key(sigs[j]@, band, r)
}

/// `(i, j)`, `i < j`, is a candidate pair: the two share a bucket in at
/// least one of the `b` bands.
pub open spec fn is_candidate(sigs: Seq<Vec<u64>>, r: int, b: int, i: int, j: int) -> bool {
    &&& 0 <= i < j < sigs.len()
    &&& exists|band: int| 0 <= band < b && #[trigger] meet_at(sigs, r, b, i, j, band)
}

/// Band `band` is the first in which `i` and `j` share a bucket.
pub open spec fn fresh_at(sigs: Seq<Vec<u64>>, r: int, b: int, i: int, j: int, band: int) -> bool {
    &&& meet_at(sigs, r, b, i, j, band)
    &&& forall|beta: int| 0 <= beta < band ==> !#[trigger] meet_at(sigs, r, b, i, j, beta)
}

/// The FNV-style hash of one band's rows.
fn band_hash(rows: &[u64]) -> (h: u64)
    ensures
        h == band_walk(rows@),
{
    let mut h: u64 = 0xCB_F2_9C_E4_84_22_FE_70u64;
    let mut t: usize = 0;
    while t < rows.len()
        invariant
            t <= rows@.len(),
            h == band_walk(rows@.take(t as int)),
        decreases rows@.len() - t,
    {
        let x = rows[t];
        proof {
            assert(rows@.take(t + 1).drop_last() =~= rows@.take(t as int));
        }
        h = h ^ x;
        h = h.wrapping_mul(0x100_0000_01B3u64).wrapping_add(x);
        t = t + 1;
    }
    proof {
        assert(rows@.take(rows@.len() as int) =~= rows@);
    }
    h
}

/// The keys of all `b` bands of a signature with at least `r·b` rows.
fn band_keys(sig: &Vec<u64>, r: usize, b: usize) -> (ks: Vec<u64>)
    requires
        r * b <= usize::MAX,
        sig@.len() >= r * b,
    ensures
        ks@.len() == b,
        forall|band: int| 0 <= band < b ==> #[trigger] ks@[band] == cand_key(sig@, band, r as int),
{
    let mut ks: Vec<u64> = Vec::new();
    let mut band: usize = 0;
    while band < b
        invariant
            band <= b,
            ks@.len() == band,
            r * b <= usize::MAX,
            sig@.len() >= r * b,
            forall|x: int| 0 <= x < band ==> #[trigger] ks@[x] == cand_key(sig@, x, r as int),
        decreases b - band,
    {
        proof {
            assert(band * r + r <= r * b) by (nonlinear_arith)
                requires
                    band < b,
            ;
        }
        let lo = band * r;
        let h = band_hash(vstd::slice::slice_subrange(sig.as_slice(), lo, lo + r));
        ks.push(h);
        band = band + 1;
    }
    ks
}

/// Whether two key rows agree somewhere before `band`.
fn met_before(x: &Vec<u64>, y: &Vec<u64>, band: usize) -> (met: bool)
    requires
        band <= x@.len(),
        band <= y@.len(),
    ensures
        !met <==> forall|beta: int| 0 <= beta < band ==> #[trigger] x@[beta] != y@[beta],
{
    let mut beta: usize = 0;
    while beta < band
        invariant
            beta <= band,
            band <= x@.len(),
            band <= y@.len(),
            forall|c: int| 0 <= c < beta ==> #[trigger] x@[c] != y@[c],
        decreases band - beta,
    {
        if x[beta] == y[beta] {
            return true;
        }
        beta = beta + 1;
    }
    false
}

/// `elig` lists, in increasing order, signatures with at least `r·b` rows;
/// `ktab[p]` holds the band keys of signature `elig[p]`.
#[verifier::opaque]
spec fn elig_ok(sigs: Seq<Vec<u64>>, r: int, b: int, elig: Seq<usize>, ktab: Seq<Vec<u64>>) -> bool {
    &&& ktab.len() == elig.len()
    &&& strict_usize(elig)
    &&& forall|p: int| 0 <= p < elig.len() ==> #[trigger] elig[p] < sigs.len()
        && sigs[elig[p] as int]@.len() >= r * b && ktab[p]@.len() == b
    &&& forall|p: int, band: int| 0 <= p < elig.len() && 0 <= band < b
        ==> #[trigger] ktab[p]@[band] == cand_key(sigs[elig[p] as int]@, band, r)
}

/// A pair that first meets in `band`, in the bucket of key `kk`.
#[verifier::opaque]
spec fn from_band(sigs: Seq<Vec<u64>>, r: int, b: int, pr: (usize, usize), band: int, kk: u64) -> bool {
    &&& pr.0 < pr.1 < sigs.len()
    &&& fresh_at(sigs, r, b, pr.0 as int, pr.1 as int, band)
    &&& cand_key(sigs[pr.0 as int]@, band, r) == kk
}

/// Every pair of bucket `g` that first meets in `band` is in `out`.
spec fn covered(sigs: Seq<Vec<u64>>, r: int, b: int, out: Seq<(usize, usize)>, elig: Seq<usize>, g: Seq<usize>, band: int) -> bool {
    forall|i: int, j: int| 0 <= i < j < g.len()
        && #[trigger] fresh_at(sigs, r, b, elig[g[i] as int] as int, elig[g[j] as int] as int, band)
        ==> out.contains((elig[g[i] as int], elig[g[j] as int]))
}

proof fn lemma_covered_grow(sigs: Seq<Vec<u64>>, r: int, b: int, out: Seq<(usize, usize)>, out2: Seq<(usize, usize)>, elig: Seq<usize>, g: Seq<usize>, band: int)
    requires
        covered(sigs, r, b, out, elig, g, band),
        out2.len() >= out.len(),
        out2.subrange(0, out.len() as int) == out,
    ensures
        covered(sigs, r, b, out2, elig, g, band),
{
    assert forall|i: int, j: int| 0 <= i < j < g.len()
        && #[trigger] fresh_at(sigs, r, b, elig[g[i] as int] as int, elig[g[j] as int] as int, band)
        implies out2.contains((elig[g[i] as int], elig[g[j] as int])) by {
        let pr = (elig[g[i] as int], elig[g[j] as int]);
        let t = choose|t: int| 0 <= t < out.len() && out[t] == pr;
        assert(out2[t] == out2.subrange(0, out.len() as int)[t]);
    }
}

/// For two listed signatures, meeting in band `beta` is agreeing on key
/// `beta` of their rows in `ktab`.
proof fn lemma_meet_keys(sigs: Seq<Vec<u64>>, r: int, b: int, elig: Seq<usize>, ktab: Seq<Vec<u64>>, pa: int, pc: int, beta: int)
    requires
        elig_ok(sigs, r, b, elig, ktab),
        0 <= pa < elig.len(),
        0 <= pc < elig.len(),
        0 <= beta < b,
    ensures
        meet_at(sigs, r, b, elig[pa] as int, elig[pc] as int, beta) <==> ktab[pa]@[beta] == ktab[pc]@[beta],
{
    reveal(elig_ok);
    assert(ktab[pa]@[beta] == cand_key(sigs[elig[pa] as int]@, beta, r));
    assert(ktab[pc]@[beta] == cand_key(sigs[elig[pc] as int]@, beta, r));
    assert(elig[pa] < sigs.len() && elig[pc] < sigs.len());
}

/// Two listed positions, in order: their signatures, in order, with all
/// their band keys.
proof fn lemma_elig_pair(sigs: Seq<Vec<u64>>, r: int, b: int, elig: Seq<usize>, ktab: Seq<Vec<u64>>, pa: int, pc: int)
    requires
        elig_ok(sigs, r, b, elig, ktab),
        0 <= pa < pc < elig.len(),
    ensures
        ktab.len() == elig.len(),
        elig[pa] < elig[pc] < sigs.len(),
        sigs[elig[pa] as int]@.len() >= r * b,
        sigs[elig[pc] as int]@.len() >= r * b,
        ktab[pa]@.len() == b,
        ktab[pc]@.len() == b,
{
    reveal(elig_ok);
    assert(elig[pa] < sigs.len() && elig[pc] < sigs.len());
}

/// Appending a pair that no entry equals keeps a sequence free of repeats.
proof fn lemma_push_distinct(ob: Seq<(usize, usize)>, pr: (usize, usize))
    requires
        ob.no_duplicates(),
        forall|t: int| 0 <= t < ob.len() ==> ob[t] != pr,
    ensures
        ob.push(pr).no_duplicates(),
{
    let o = ob.push(pr);
    assert forall|x: int, y: int| 0 <= x < o.len() && 0 <= y < o.len() && x != y implies o[x] != o[y] by {
        if x < ob.len() && y < ob.len() {
            assert(o[x] == ob[x] && o[y] == ob[y]);
        } else if x < ob.len() {
            assert(o[x] == ob[x]);
        } else {
            assert(o[y] == ob[y]);
        }
    }
}

/// Entries from `lo` on are pairs of this bucket that first meet in `band`.
#[verifier::opaque]
spec fn tail_ok(sigs: Seq<Vec<u64>>, r: int, b: int, out: Seq<(usize, usize)>, lo: int, band: int, kk: u64) -> bool {
    forall|t: int| lo <= t < out.len() ==> #[trigger] from_band(sigs, r, b, out[t], band, kk)
}

/// Entries from `lo` on come before `(a, c)` in the order of first and then
/// second member.
#[verifier::opaque]
spec fn tail_lex(out: Seq<(usize, usize)>, lo: int, a: int, c: int) -> bool {
    forall|t: int| lo <= t < out.len() ==> (#[trigger] out[t]).0 < a || (out[t].0 == a && out[t].1 < c)
}

/// Every pair `(i2, j2)` of the bucket before `(i, j)` that first meets in
/// `band` is in `out`.
#[verifier::opaque]
spec fn done_upto(sigs: Seq<Vec<u64>>, r: int, b: int, out: Seq<(usize, usize)>, elig: Seq<usize>, g: Seq<usize>, band: int, i: int, j: int) -> bool {
    forall|i2: int, j2: int| 0 <= i2 < j2 < g.len() && (i2 < i || (i2 == i && j2 < j))
        && #[trigger] fresh_at(sigs, r, b, elig[g[i2] as int] as int, elig[g[j2] as int] as int, band)
        ==> out.contains((elig[g[i2] as int], elig[g[j2] as int]))
}

proof fn lemma_tail_push(sigs: Seq<Vec<u64>>, r: int, b: int, out: Seq<(usize, usize)>, lo: int, band: int, kk: u64, pr: (usize, usize))
    requires
        0 <= lo,
        tail_ok(sigs, r, b, out, lo, band, kk),
        from_band(sigs, r, b, pr, band, kk),
    ensures
        tail_ok(sigs, r, b, out.push(pr), lo, band, kk),
{
    reveal(tail_ok);
    let o = out.push(pr);
    assert forall|t: int| lo <= t < o.len() implies #[trigger] from_band(sigs, r, b, o[t], band, kk) by {
        if t < out.len() {
            assert(o[t] == out[t]);
            assert(from_band(sigs, r, b, out[t], band, kk));
        } else {
            assert(o[t] == pr);
        }
    }
}

/// A pair of the bucket, appended: entries stay before the next pair, and
/// the new pair equals none of them.
proof fn lemma_lex_push(out: Seq<(usize, usize)>, lo: int, a: int, c: int, c2: int)
    requires
        tail_lex(out, lo, a, c),
        c < c2,
        0 <= a <= usize::MAX,
        0 <= c <= usize::MAX,
        0 <= lo <= out.len(),
    ensures
        forall|t: int| lo <= t < out.len() ==> out[t] != (a as usize, c as usize),
        tail_lex(out.push((a as usize, c as usize)), lo, a, c2),
{
    reveal(tail_lex);
    let o = out.push((a as usize, c as usize));
    assert forall|t: int| lo <= t < out.len() implies out[t] != (a as usize, c as usize) by {
        assert(out[t].0 < a || (out[t].0 == a && out[t].1 < c));
    }
    assert forall|t: int| lo <= t < o.len() implies (#[trigger] o[t]).0 < a || (o[t].0 == a && o[t].1 < c2) by {
        if t < out.len() {
            assert(o[t] == out[t]);
            assert(out[t].0 < a || (out[t].0 == a && out[t].1 < c));
        }
    }
}

proof fn lemma_lex_weaken(out: Seq<(usize, usize)>, lo: int, a: int, c: int, a2: int, c2: int)
    requires
        tail_lex(out, lo, a, c),
        a < a2 || (a == a2 && c <= c2),
    ensures
        tail_lex(out, lo, a2, c2),
{
    reveal(tail_lex);
    assert forall|t: int| lo <= t < out.len() implies (#[trigger] out[t]).0 < a2 || (out[t].0 == a2 && out[t].1 < c2) by {
        assert(out[t].0 < a || (out[t].0 == a && out[t].1 < c));
    }
}

/// Growing `out` keeps every pair it already held.
proof fn lemma_done_grow(sigs: Seq<Vec<u64>>, r: int, b: int, out: Seq<(usize, usize)>, out2: Seq<(usize, usize)>, elig: Seq<usize>, g: Seq<usize>, band: int, i: int, j: int)
    requires
        done_upto(sigs, r, b, out, elig, g, band, i, j),
        out2.len() >= out.len(),
        out2.subrange(0, out.len() as int) == out,
    ensures
        done_upto(sigs, r, b, out2, elig, g, band, i, j),
{
    reveal(done_upto);
    assert forall|i2: int, j2: int| 0 <= i2 < j2 < g.len() && (i2 < i || (i2 == i && j2 < j))
        && #[trigger] fresh_at(sigs, r, b, elig[g[i2] as int] as int, elig[g[j2] as int] as int, band)
        implies out2.contains((elig[g[i2] as int], elig[g[j2] as int])) by {
        let pr = (elig[g[i2] as int], elig[g[j2] as int]);
        let t = choose|t: int| 0 <= t < out.len() && out[t] == pr;
        assert(out2[t] == out2.subrange(0, out.len() as int)[t]);
    }
}

/// Pair `(i, j)` handled: the bound moves past it.
proof fn lemma_done_step(sigs: Seq<Vec<u64>>, r: int, b: int, out: Seq<(usize, usize)>, elig: Seq<usize>, g: Seq<usize>, band: int, i: int, j: int)
    requires
        done_upto(sigs, r, b, out, elig, g, band, i, j),
        0 <= i < j < g.len(),
        fresh_at(sigs, r, b, elig[g[i] as int] as int, elig[g[j] as int] as int, band)
            ==> out.contains((elig[g[i] as int], elig[g[j] as int])),
    ensures
        done_upto(sigs, r, b, out, elig, g, band, i, j + 1),
{
    reveal(done_upto);
}

/// Row `i` finished: on to row `i + 1`.
proof fn lemma_done_row(sigs: Seq<Vec<u64>>, r: int, b: int, out: Seq<(usize, usize)>, elig: Seq<usize>, g: Seq<usize>, band: int, i: int)
    requires
        done_upto(sigs, r, b, out, elig, g, band, i, g.len() as int),
    ensures
        done_upto(sigs, r, b, out, elig, g, band, i + 1, i + 2),
{
    reveal(done_upto);
}

proof fn lemma_done_covered(sigs: Seq<Vec<u64>>, r: int, b: int, out: Seq<(usize, usize)>, elig: Seq<usize>, g: Seq<usize>, band: int, i: int)
    requires
        done_upto(sigs, r, b, out, elig, g, band, i, i + 1),
        i >= g.len(),
    ensures
        covered(sigs, r, b, out, elig, g, band),
{
    reveal(done_upto);
}

/// The state of a bucket scan at pair `(i, j)`: `out` extends `o0` with
/// distinct pairs of the bucket, all before the pair `(a, cb)`, and holds
/// every earlier pair of the bucket that first meets in `band`.
spec fn scan_ok(
    sigs: Seq<Vec<u64>>, r: int, b: int, out: Seq<(usize, usize)>, o0: Seq<(usize, usize)>,
    elig: Seq<usize>, g: Seq<usize>, band: int, kk: u64, a: int, cb: int, i: int, j: int,
) -> bool {
    &&& out.len() >= o0.len()
    &&& out.subrange(0, o0.len() as int) == o0
    &&& out.no_duplicates()
    &&& tail_ok(sigs, r, b, out, o0.len() as int, band, kk)
    &&& tail_lex(out, o0.len() as int, a, cb)
    &&& done_upto(sigs, r, b, out, elig, g, band, i, j)
}

/// What a bucket scan may rely on.
spec fn bucket_ctx(
    sigs: Seq<Vec<u64>>, r: int, b: int, o0: Seq<(usize, usize)>, elig: Seq<usize>, ktab: Seq<Vec<u64>>,
    g: Seq<usize>, band: int, kk: u64,
) -> bool {
    &&& 0 <= band < b
    &&& elig_ok(sigs, r, b, elig, ktab)
    &&& strict_usize(g)
    &&& forall|u: int| 0 <= u < g.len() ==> #[trigger] g[u] < elig.len() && ktab[g[u] as int]@[band] == kk
    &&& forall|t: int| 0 <= t < o0.len() ==> !#[trigger] from_band(sigs, r, b, o0[t], band, kk)
}

/// One past the largest signature index.
spec fn beyond() -> int {
    usize::MAX as int + 1
}

/// The bound for pair `(i, j)`: the second member, or past every index.
spec fn bound_at(elig: Seq<usize>, g: Seq<usize>, j: int) -> int {
    if j < g.len() {
        elig[g[j] as int] as int
    } else {
        beyond()
    }
}

/// Handles pair `(i, j)` of the bucket: appends it when `band` is the
/// first band in which its signatures meet.
fn consider_pair(
    out: &mut Vec<(usize, usize)>,
    g: &Vec<usize>,
    elig: &Vec<usize>,
    ktab: &Vec<Vec<u64>>,
    band: usize,
    i: usize,
    j: usize,
    Ghost(sigs): Ghost<Seq<Vec<u64>>>,
    Ghost(r): Ghost<int>,
    Ghost(b): Ghost<int>,
    Ghost(kk): Ghost<u64>,
    Ghost(o0): Ghost<Seq<(usize, usize)>>,
)
    requires
        bucket_ctx(sigs, r, b, o0, elig@, ktab@, g@, band as int, kk),
        i < j < g@.len(),
        scan_ok(sigs, r, b, old(out)@, o0, elig@, g@, band as int, kk,
            elig@[g@[i as int] as int] as int, bound_at(elig@, g@, j as int), i as int, j as int),
    ensures
        scan_ok(sigs, r, b, final(out)@, o0, elig@, g@, band as int, kk,
            elig@[g@[i as int] as int] as int, bound_at(elig@, g@, j + 1), i as int, j + 1),
{
    let pa = g[i];
    let a = elig[pa];
    let pc = g[j];
    let c = elig[pc];
    let ghost lo = o0.len() as int;
    let ghost cnext = bound_at(elig@, g@, j + 1);
    proof {
        assert(g@[i as int] < g@[j as int]);
        assert(g@[i as int] < elig@.len() && g@[j as int] < elig@.len());
        lemma_elig_pair(sigs, r, b, elig@, ktab@, pa as int, pc as int);
        assert(a < c);
        if j + 1 < g@.len() {
            assert(g@[j as int] < g@[j + 1]);
            assert(g@[j + 1] < elig@.len());
            lemma_elig_pair(sigs, r, b, elig@, ktab@, pc as int, g@[j + 1] as int);
        }
        assert(c < cnext);
    }
    let met = met_before(&ktab[pa], &ktab[pc], band);
    proof {
        lemma_meet_keys(sigs, r, b, elig@, ktab@, pa as int, pc as int, band as int);
        assert forall|beta: int|
            #![trigger meet_at(sigs, r, b, a as int, c as int, beta)]
            #![trigger ktab@[pa as int]@[beta]]
            0 <= beta < band implies
            (meet_at(sigs, r, b, a as int, c as int, beta) <==> ktab@[pa as int]@[beta] == ktab@[pc as int]@[beta]) by {
            lemma_meet_keys(sigs, r, b, elig@, ktab@, pa as int, pc as int, beta);
        }
        assert(ktab@[pa as int]@[band as int] == kk);
        assert(ktab@[pc as int]@[band as int] == kk);
        assert(meet_at(sigs, r, b, a as int, c as int, band as int));
        assert(!met <==> fresh_at(sigs, r, b, a as int, c as int, band as int));
    }
    if !met {
        let ghost ob = out@;
        proof {
            assert(cand_key(sigs[a as int]@, band as int, r) == kk) by {
                reveal(elig_ok);
            }
            assert(from_band(sigs, r, b, (a, c), band as int, kk)) by {
                reveal(from_band);
            }
            lemma_lex_push(ob, lo, a as int, c as int, cnext);
            assert forall|t: int| 0 <= t < ob.len() implies ob[t] != (a, c) by {
                if t < lo {
                    assert(ob[t] == ob.subrange(0, lo)[t]);
                    assert(!from_band(sigs, r, b, o0[t], band as int, kk));
                }
            }
            lemma_push_distinct(ob, (a, c));
            lemma_tail_push(sigs, r, b, ob, lo, band as int, kk, (a, c));
        }
        out.push((a, c));
        proof {
            assert(out@ == ob.push((a, c)));
            assert(out@.subrange(0, lo) =~= ob.subrange(0, lo));
            assert(out@.subrange(0, ob.len() as int) =~= ob);
            lemma_done_grow(sigs, r, b, ob, out@, elig@, g@, band as int, i as int, j as int);
            assert(out@[ob.len() as int] == (a, c));
            assert(out@.contains((a, c)));
        }
    } else {
        proof {
            lemma_lex_weaken(out@, lo, a as int, c as int, a as int, cnext);
        }
    }
    proof {
        lemma_done_step(sigs, r, b, out@, elig@, g@, band as int, i as int, j as int);
    }
}

/// Appends the pairs of bucket `g` (positions into `elig`) that first meet
/// in `band`, in order of their first and then their second member.
fn push_bucket(
    out: &mut Vec<(usize, usize)>,
    g: &Vec<usize>,
    elig: &Vec<usize>,
    ktab: &Vec<Vec<u64>>,
    band: usize,
    Ghost(sigs): Ghost<Seq<Vec<u64>>>,
    Ghost(r): Ghost<int>,
    Ghost(b): Ghost<int>,
    Ghost(kk): Ghost<u64>,
)
    requires
        band < b,
        elig_ok(sigs, r, b, elig@, ktab@),
        strict_usize(g@),
        forall|u: int| 0 <= u < g@.len() ==> #[trigger] g@[u] < elig@.len() && ktab@[g@[u] as int]@[band as int] == kk,
        old(out)@.no_duplicates(),
        forall|t: int| 0 <= t < old(out)@.len() ==> !#[trigger] from_band(sigs, r, b, old(out)@[t], band as int, kk),
    ensures
        final(out)@.len() >= old(out)@.len(),
        final(out)@.subrange(0, old(out)@.len() as int) == old(out)@,
        final(out)@.no_duplicates(),
        forall|t: int| old(out)@.len() <= t < final(out)@.len() ==> #[trigger] from_band(sigs, r, b, final(out)@[t], band as int, kk),
        covered(sigs, r, b, final(out)@, elig@, g@, band as int),
{
    let ghost o0 = out@;
    let ghost lo = o0.len() as int;
    proof {
        reveal(tail_ok);
        reveal(tail_lex);
        reveal(done_upto);
        assert(out@.subrange(0, lo) =~= o0);
        assert(bucket_ctx(sigs, r, b, o0, elig@, ktab@, g@, band as int, kk));
    }
    let mut i: usize = 0;
    while i < g.len()
        invariant
            bucket_ctx(sigs, r, b, o0, elig@, ktab@, g@, band as int, kk),
            lo == o0.len(),
            i <= g@.len(),
            scan_ok(sigs, r, b, out@, o0, elig@, g@, band as int, kk,
                bound_at(elig@, g@, i as int), 0, i as int, i + 1),
        decreases g@.len() - i,
    {
        let mut j: usize = i + 1;
        proof {
            lemma_lex_weaken(out@, lo, bound_at(elig@, g@, i as int), 0,
                elig@[g@[i as int] as int] as int, bound_at(elig@, g@, j as int));
        }
        while j < g.len()
            invariant
                bucket_ctx(sigs, r, b, o0, elig@, ktab@, g@, band as int, kk),
                lo == o0.len(),
                i < j <= g@.len(),
                scan_ok(sigs, r, b, out@, o0, elig@, g@, band as int, kk,
                    elig@[g@[i as int] as int] as int, bound_at(elig@, g@, j as int), i as int, j as int),
            decreases g@.len() - j,
        {
            consider_pair(out, g, elig, ktab, band, i, j, Ghost(sigs), Ghost(r), Ghost(b), Ghost(kk), Ghost(o0));
            j = j + 1;
        }
        proof {
            lemma_done_row(sigs, r, b, out@, elig@, g@, band as int, i as int);
            if i + 1 < g@.len() {
                assert(g@[i as int] < g@[i + 1]);
                assert(g@[i + 1] < elig@.len());
                lemma_elig_pair(sigs, r, b, elig@, ktab@, g@[i as int] as int, g@[i + 1] as int);
            }
            lemma_lex_weaken(out@, lo, elig@[g@[i as int] as int] as int, beyond(),
                bound_at(elig@, g@, i + 1), 0);
        }
        i = i + 1;
    }
    proof {
        lemma_done_covered(sigs, r, b, out@, elig@, g@, band as int, i as int);
        reveal(tail_ok);
    }
}

/// The pair met in a band before `band`.
spec fn met_earlier(sigs: Seq<Vec<u64>>, r: int, b: int, pr: (usize, usize), band: int) -> bool {
    &&& pr.0 < pr.1 < sigs.len()
    &&& exists|beta: int| 0 <= beta < band && #[trigger] meet_at(sigs, r, b, pr.0 as int, pr.1 as int, beta)
}

/// The pair first met in `band`, in one of the buckets `ks[..s]`.
spec fn from_keys(sigs: Seq<Vec<u64>>, r: int, b: int, pr: (usize, usize), band: int, ks: Seq<u64>, s: int) -> bool {
    exists|s2: int| 0 <= s2 < s && #[trigger] from_band(sigs, r, b, pr, band, ks[s2])
}

/// When every bucket of band `band` is covered, every pair that first
/// meets in `band` is in `out`.
proof fn lemma_band_complete(
    sigs: Seq<Vec<u64>>, r: int, b: int, elig: Seq<usize>, ktab: Seq<Vec<u64>>, bm: Map<u64, Vec<usize>>,
    ks: Seq<u64>, key: spec_fn(int) -> u64, out: Seq<(usize, usize)>, band: int, i: int, j: int,
)
    requires
        elig_ok(sigs, r, b, elig, ktab),
        forall|x: int| 0 <= x < sigs.len() && sigs[x]@.len() >= r * b ==> #[trigger] elig.contains(x as usize),
        0 <= band < b,
        key == (|p: int| ktab[p]@[band]),
        buckets_ok(bm, key, elig.len() as int),
        forall|k: u64| #[trigger] ks.contains(k) <==> bm.contains_key(k),
        forall|s2: int| 0 <= s2 < ks.len() ==> #[trigger] covered(sigs, r, b, out, elig, bm[ks[s2]]@, band),
        sigs.len() <= usize::MAX,
        elig.len() <= usize::MAX,
        0 <= i < j < sigs.len(),
        fresh_at(sigs, r, b, i, j, band),
    ensures
        out.contains((i as usize, j as usize)),
{
    assert(meet_at(sigs, r, b, i, j, band));
    assert(elig.contains(i as usize));
    assert(elig.contains(j as usize));
    let pa = choose|p: int| 0 <= p < elig.len() && elig[p] == i as usize;
    let pc = choose|p: int| 0 <= p < elig.len() && elig[p] == j as usize;
    if pa >= pc {
        if pa > pc {
            lemma_elig_pair(sigs, r, b, elig, ktab, pc, pa);
        }
        assert(false);
    }
    lemma_meet_keys(sigs, r, b, elig, ktab, pa, pc, band);
    let h = key(pa);
    assert(key(pc) == h);
    assert(in_bucket(bm, key, pa));
    assert(in_bucket(bm, key, pc));
    assert(ks.contains(h));
    let s2 = choose|s2: int| 0 <= s2 < ks.len() && ks[s2] == h;
    let g = bm[h]@;
    let ui = choose|u: int| 0 <= u < g.len() && g[u] == pa as usize;
    let uj = choose|u: int| 0 <= u < g.len() && g[u] == pc as usize;
    assert(strict_usize(g));
    if ui >= uj {
        if ui > uj {
            assert(g[uj] < g[ui]);
        }
        assert(false);
    }
    assert(covered(sigs, r, b, out, elig, bm[ks[s2]]@, band));
    assert(fresh_at(sigs, r, b, elig[g[ui] as int] as int, elig[g[uj] as int] as int, band));
}

/// LSH banding: the pairs `(i, j)`, `i < j`, of signatures that share a
/// bucket in at least one of `b` bands of `r` rows, each pair once.
/// Signatures with fewer than `r·b` rows take no part. The pairs come band
/// by band; within a band, bucket by bucket in the order the hash map yields
/// the buckets.
#[verifier::rlimit(40)]
pub fn lsh_candidates(signatures: &[Vec<u64>], r: usize, b: usize) -> (out: Vec<(usize, usize)>)
    requires
        r * b <= usize::MAX,
    ensures
        out@.no_duplicates(),
        forall|t: int| 0 <= t < out@.len()
            ==> #[trigger] is_candidate(signatures@, r as int, b as int, out@[t].0 as int, out@[t].1 as int),
        forall|i: int, j: int| #[trigger] is_candidate(signatures@, r as int, b as int, i, j)
            ==> out@.contains((i as usize, j as usize)),
{
    let k = r * b;
    let n = signatures.len();
    let ghost sigs = signatures@;
    let ghost ri = r as int;
    let ghost bi = b as int;
    let mut elig: Vec<usize> = Vec::new();
    let mut ktab: Vec<Vec<u64>> = Vec::new();
    proof {
        reveal(elig_ok);
    }
    let mut idx: usize = 0;
    while idx < n
        invariant
            n == sigs.len(),
            sigs == signatures@,
            ri == r,
            bi == b,
            k == r * b,
            r * b <= usize::MAX,
            idx <= n,
            elig_ok(sigs, ri, bi, elig@, ktab@),
            forall|p: int| 0 <= p < elig@.len() ==> #[trigger] elig@[p] < idx,
            forall|x: int| 0 <= x < idx && sigs[x]@.len() >= ri * bi ==> #[trigger] elig@.contains(x as usize),
        decreases n - idx,
    {
        if signatures[idx].len() >= k {
            let keys = band_keys(&signatures[idx], r, b);
            let ghost e0 = elig@;
            let ghost k0 = ktab@;
            elig.push(idx);
            ktab.push(keys);
            proof {
                reveal(elig_ok);
                assert(elig@ == e0.push(idx));
                assert(ktab@ == k0.push(keys));
                assert forall|p: int, q: int| 0 <= p < q < elig@.len() implies #[trigger] elig@[p] < #[trigger] elig@[q] by {
                    if q < e0.len() {
                        assert(e0[p] < e0[q]);
                    } else {
                        assert(e0[p] < idx);
                    }
                }
                assert forall|p: int| 0 <= p < elig@.len() implies #[trigger] elig@[p] < sigs.len()
                    && sigs[elig@[p] as int]@.len() >= ri * bi && ktab@[p]@.len() == bi by {
                    if p < e0.len() {
                        assert(elig@[p] == e0[p] && ktab@[p] == k0[p]);
                    }
                }
                assert forall|p: int, band: int| 0 <= p < elig@.len() && 0 <= band < bi
                    implies #[trigger] ktab@[p]@[band] == cand_key(sigs[elig@[p] as int]@, band, ri) by {
                    if p < e0.len() {
                        assert(elig@[p] == e0[p] && ktab@[p] == k0[p]);
                    }
                }
                assert forall|x: int| 0 <= x < idx + 1 && sigs[x]@.len() >= ri * bi implies #[trigger] elig@.contains(x as usize) by {
                    if x < idx {
                        assert(e0.contains(x as usize));
                        let p = choose|p: int| 0 <= p < e0.len() && e0[p] == x as usize;
                        assert(elig@[p] == x as usize);
                    } else {
                        assert(elig@[e0.len() as int] == idx);
                    }
                }
            }
        }
        idx = idx + 1;
    }
    let m = elig.len();
    proof {
        reveal(elig_ok);
        assert forall|p: int| 0 <= p < m implies #[trigger] ktab@[p]@.len() == b by {
            assert(elig@[p] < sigs.len());
        }
    }
    let mut out: Vec<(usize, usize)> = Vec::new();
    let mut band: usize = 0;
    while band < b
        invariant
            n == sigs.len(),
            sigs == signatures@,
            ri == r,
            bi == b,
            r * b <= usize::MAX,
            band <= b,
            m == elig@.len(),
            ktab@.len() == m,
            forall|p: int| 0 <= p < m ==> #[trigger] ktab@[p]@.len() == b,
            elig_ok(sigs, ri, bi, elig@, ktab@),
            forall|x: int| 0 <= x < n && sigs[x]@.len() >= ri * bi ==> #[trigger] elig@.contains(x as usize),
            out@.no_duplicates(),
            forall|t: int| 0 <= t < out@.len() ==> #[trigger] met_earlier(sigs, ri, bi, out@[t], band as int),
            forall|i: int, j: int, beta: int| 0 <= beta < band && 0 <= i < j < n
                && #[trigger] meet_at(sigs, ri, bi, i, j, beta) ==> out@.contains((i as usize, j as usize)),
        decreases b - band,
    {
        let ghost key = |p: int| ktab@[p]@[band as int];
        let mut buckets = bucket_map_new();
        let mut p: usize = 0;
        while p < m
            invariant
                m == elig@.len(),
                ktab@.len() == m,
                forall|q: int| 0 <= q < m ==> #[trigger] ktab@[q]@.len() == b,
                band < b,
                p <= m,
                key == (|q: int| ktab@[q]@[band as int]),
                buckets_ok(buckets@, key, p as int),
            decreases m - p,
        {
            let h = ktab[p][band];
            let ghost m0 = buckets@;
            bucket_push(&mut buckets, h, p);
            proof {
                lemma_buckets_push(m0, buckets@, key, p as int);
            }
            p = p + 1;
        }
        let ks = bucket_keys(&buckets);
        let ghost bm = buckets@;
        let ghost ob = out@;
        let mut s: usize = 0;
        proof {
            assert(out@.subrange(0, ob.len() as int) =~= ob);
        }
        while s < ks.len()
            invariant
                n == sigs.len(),
                sigs == signatures@,
                ri == r,
                bi == b,
                band < b,
                m == elig@.len(),
                ktab@.len() == m,
                elig_ok(sigs, ri, bi, elig@, ktab@),
                key == (|q: int| ktab@[q]@[band as int]),
                bm == buckets@,
                buckets_ok(bm, key, m as int),
                ks@.no_duplicates(),
                forall|kx: u64| #[trigger] ks@.contains(kx) <==> bm.contains_key(kx),
                s <= ks@.len(),
                out@.len() >= ob.len(),
                out@.subrange(0, ob.len() as int) == ob,
                out@.no_duplicates(),
                forall|t: int| 0 <= t < ob.len() ==> #[trigger] met_earlier(sigs, ri, bi, ob[t], band as int),
                forall|t: int| ob.len() <= t < out@.len() ==> #[trigger] from_keys(sigs, ri, bi, out@[t], band as int, ks@, s as int),
                forall|s2: int| 0 <= s2 < s ==> #[trigger] covered(sigs, ri, bi, out@, elig@, bm[ks@[s2]]@, band as int),
            decreases ks@.len() - s,
        {
            proof {
                assert(ks@.contains(ks@[s as int]));
            }
            let g = bucket_get(&buckets, ks[s]);
            let ghost kk = ks@[s as int];
            let ghost o1 = out@;
            proof {
                assert forall|u: int| 0 <= u < g@.len() implies #[trigger] g@[u] < elig@.len()
                    && ktab@[g@[u] as int]@[band as int] == kk by {
                    assert(bm[kk]@[u] < m && key(bm[kk]@[u] as int) == kk);
                }
                assert forall|t: int| 0 <= t < o1.len() implies !#[trigger] from_band(sigs, ri, bi, o1[t], band as int, kk) by {
                    reveal(from_band);
                    if t < ob.len() {
                        assert(o1[t] == o1.subrange(0, ob.len() as int)[t]);
                        assert(met_earlier(sigs, ri, bi, ob[t], band as int));
                        let beta = choose|beta: int| 0 <= beta < band && #[trigger] meet_at(sigs, ri, bi, ob[t].0 as int, ob[t].1 as int, beta);
                        assert(!fresh_at(sigs, ri, bi, o1[t].0 as int, o1[t].1 as int, band as int));
                    } else {
                        assert(from_keys(sigs, ri, bi, o1[t], band as int, ks@, s as int));
                        let s2 = choose|s2: int| 0 <= s2 < s && #[trigger] from_band(sigs, ri, bi, o1[t], band as int, ks@[s2]);
                        assert(ks@[s2] != kk);
                    }
                }
            }
            push_bucket(&mut out, g, &elig, &ktab, band, Ghost(sigs), Ghost(ri), Ghost(bi), Ghost(kk));
            proof {
                assert(out@.subrange(0, ob.len() as int) =~= o1.subrange(0, ob.len() as int)) by {
                    assert forall|t: int| 0 <= t < ob.len() implies out@[t] == o1[t] by {
                        assert(out@[t] == out@.subrange(0, o1.len() as int)[t]);
                    }
                }
                assert forall|t: int| ob.len() <= t < out@.len() implies #[trigger] from_keys(sigs, ri, bi, out@[t], band as int, ks@, s + 1) by {
                    if t < o1.len() {
                        assert(out@[t] == out@.subrange(0, o1.len() as int)[t]);
                        assert(from_keys(sigs, ri, bi, o1[t], band as int, ks@, s as int));
                        let s2 = choose|s2: int| 0 <= s2 < s && #[trigger] from_band(sigs, ri, bi, o1[t], band as int, ks@[s2]);
                        assert(from_band(sigs, ri, bi, out@[t], band as int, ks@[s2]));
                    } else {
                        assert(from_band(sigs, ri, bi, out@[t], band as int, ks@[s as int]));
                    }
                }
                assert forall|s2: int| 0 <= s2 < s + 1 implies #[trigger] covered(sigs, ri, bi, out@, elig@, bm[ks@[s2]]@, band as int) by {
                    if s2 < s {
                        lemma_covered_grow(sigs, ri, bi, o1, out@, elig@, bm[ks@[s2]]@, band as int);
                    }
                }
            }
            s = s + 1;
        }
        proof {
            let oe = out@;
            assert forall|i: int, j: int| 0 <= i < j < n && fresh_at(sigs, ri, bi, i, j, band as int)
                implies oe.contains((i as usize, j as usize)) by {
                lemma_band_complete(sigs, ri, bi, elig@, ktab@, bm, ks@, key, oe, band as int, i, j);
            }
            assert forall|t: int| 0 <= t < oe.len() implies #[trigger] met_earlier(sigs, ri, bi, oe[t], band + 1) by {
                if t < ob.len() {
                    assert(oe[t] == oe.subrange(0, ob.len() as int)[t]);
                    assert(met_earlier(sigs, ri, bi, ob[t], band as int));
                    let beta = choose|beta: int| 0 <= beta < band && #[trigger] meet_at(sigs, ri, bi, ob[t].0 as int, ob[t].1 as int, beta);
                    assert(meet_at(sigs, ri, bi, oe[t].0 as int, oe[t].1 as int, beta));
                } else {
                    assert(from_keys(sigs, ri, bi, oe[t], band as int, ks@, s as int));
                    let s2 = choose|s2: int| 0 <= s2 < s && #[trigger] from_band(sigs, ri, bi, oe[t], band as int, ks@[s2]);
                    reveal(from_band);
                    assert(meet_at(sigs, ri, bi, oe[t].0 as int, oe[t].1 as int, band as int));
                }
            }
            assert forall|i: int, j: int, beta: int| 0 <= beta < band + 1 && 0 <= i < j < n
                && #[trigger] meet_at(sigs, ri, bi, i, j, beta) implies oe.contains((i as usize, j as usize)) by {
                if beta < band {
                    assert(ob.contains((i as usize, j as usize)));
                    let t = choose|t: int| 0 <= t < ob.len() && ob[t] == (i as usize, j as usize);
                    assert(oe[t] == oe.subrange(0, ob.len() as int)[t]);
                } else if fresh_at(sigs, ri, bi, i, j, band as int) {
                } else {
                    let beta2 = choose|beta2: int| 0 <= beta2 < band && #[trigger] meet_at(sigs, ri, bi, i, j, beta2);
                    assert(ob.contains((i as usize, j as usize)));
                    let t = choose|t: int| 0 <= t < ob.len() && ob[t] == (i as usize, j as usize);
                    assert(oe[t] == oe.subrange(0, ob.len() as int)[t]);
                }
            }
        }
        band = band + 1;
    }
    proof {
        assert forall|t: int| 0 <= t < out@.len()
            implies #[trigger] is_candidate(signatures@, ri, bi, out@[t].0 as int, out@[t].1 as int) by {
            assert(met_earlier(sigs, ri, bi, out@[t], bi));
        }
        assert forall|i: int, j: int| #[trigger] is_candidate(signatures@, ri, bi, i, j)
            implies out@.contains((i as usize, j as usize)) by {
            let beta = choose|beta: int| 0 <= beta < bi && #[trigger] meet_at(sigs, ri, bi, i, j, beta);
        }
    }
    out
}

// ---------------------------------------------------------------------------
// Clusters: the connected components of a set of pairs, labelled in order of
// first appearance.

/// Some pair joins `x` and `y`, in either order.
pub open spec fn pair_edge(pairs: Seq<(usize, usize)>, x: int, y: int) -> bool {
    exists|t: int| 0 <= t < pairs.len()
        && ((#[trigger] pairs[t].0 == x && pairs[t].1 == y) || (pairs[t].0 == y && pairs[t].1 == x))
}

/// `p` walks along pairs, over indices below `n`.
pub open spec fn is_path(pairs: Seq<(usize, usize)>, n: int, p: Seq<int>) -> bool {
    &&& p.len() >= 1
    &&& forall|k: int| 0 <= k < p.len() ==> 0 <= #[trigger] p[k] < n
    &&& forall|k: int| 0 <= k < p.len() - 1 ==> #[trigger] pair_edge(pairs, p[k], p[k + 1])
}

/// `i` and `j` lie in one connected component of the pairs.
pub open spec fn joined(pairs: Seq<(usize, usize)>, n: int, i: int, j: int) -> bool {
    exists|p: Seq<int>| #[trigger] is_path(pairs, n, p) && p[0] == i && p.last() == j
}

proof fn lemma_joined_refl(pairs: Seq<(usize, usize)>, n: int, i: int)
    requires
        0 <= i < n,
    ensures
        joined(pairs, n, i, i),
{
    let p = seq![i];
    assert(is_path(pairs, n, p));
}

proof fn lemma_joined_edge(pairs: Seq<(usize, usize)>, n: int, t: int)
    requires
        0 <= t < pairs.len(),
        pairs[t].0 < n,
        pairs[t].1 < n,
    ensures
        joined(pairs, n, pairs[t].0 as int, pairs[t].1 as int),
{
    let p = seq![pairs[t].0 as int, pairs[t].1 as int];
    assert(pair_edge(pairs, p[0], p[1]));
    assert(is_path(pairs, n, p));
}

proof fn lemma_joined_sym(pairs: Seq<(usize, usize)>, n: int, i: int, j: int)
    requires
        joined(pairs, n, i, j),
    ensures
        joined(pairs, n, j, i),
{
    let p = choose|p: Seq<int>| #[trigger] is_path(pairs, n, p) && p[0] == i && p.last() == j;
    let q = p.reverse();
    assert forall|k: int| 0 <= k < q.len() - 1 implies #[trigger] pair_edge(pairs, q[k], q[k + 1]) by {
        let a = p.len() - 1 - k;
        let k0 = a - 1;
        assert(q[k] == p[a] && q[k + 1] == p[k0]);
        assert(pair_edge(pairs, p[k0], p[k0 + 1]));
        let t = choose|t: int| 0 <= t < pairs.len()
            && ((#[trigger] pairs[t].0 == p[k0] && pairs[t].1 == p[k0 + 1]) || (pairs[t].0 == p[k0 + 1] && pairs[t].1 == p[k0]));
        assert(pairs[t].0 == q[k] && pairs[t].1 == q[k + 1] || pairs[t].0 == q[k + 1] && pairs[t].1 == q[k]);
    }
    assert forall|k: int| 0 <= k < q.len() implies 0 <= #[trigger] q[k] < n by {
        assert(q[k] == p[p.len() - 1 - k]);
    }
    assert(is_path(pairs, n, q));
}

proof fn lemma_joined_trans(pairs: Seq<(usize, usize)>, n: int, i: int, j: int, k: int)
    requires
        joined(pairs, n, i, j),
        joined(pairs, n, j, k),
    ensures
        joined(pairs, n, i, k),
{
    let p = choose|p: Seq<int>| #[trigger] is_path(pairs, n, p) && p[0] == i && p.last() == j;
    let q = choose|q: Seq<int>| #[trigger] is_path(pairs, n, q) && q[0] == j && q.last() == k;
    let c = p + q.drop_first();
    assert forall|t: int| 0 <= t < c.len() implies 0 <= #[trigger] c[t] < n by {
        if t < p.len() {
            assert(c[t] == p[t]);
        } else {
            assert(c[t] == q[t - p.len() + 1]);
        }
    }
    assert forall|t: int| 0 <= t < c.len() - 1 implies #[trigger] pair_edge(pairs, c[t], c[t + 1]) by {
        if t < p.len() - 1 {
            assert(c[t] == p[t] && c[t + 1] == p[t + 1]);
        } else if t == p.len() - 1 {
            assert(c[t] == q[0] && c[t + 1] == q[1]);
        } else {
            let s = t - p.len() + 1;
            assert(c[t] == q[s] && c[t + 1] == q[s + 1]);
        }
    }
    assert(is_path(pairs, n, c));
}

/// Every parent link stays within one component.
spec fn links_joined(pairs: Seq<(usize, usize)>, p: Seq<usize>) -> bool {
    forall|y: int| 0 <= y < p.len() ==> #[trigger] joined(pairs, p.len() as int, y, p[y] as int)
}

proof fn lemma_root_joined(pairs: Seq<(usize, usize)>, p: Seq<usize>, x: int)
    requires
        uf_ok(p),
        links_joined(pairs, p),
        0 <= x < p.len(),
    ensures
        joined(pairs, p.len() as int, x, root(p, x)),
    decreases x,
{
    if p[x] < x {
        lemma_root_joined(pairs, p, p[x] as int);
        lemma_joined_trans(pairs, p.len() as int, x, p[x] as int, root(p, p[x] as int));
    } else {
        lemma_joined_refl(pairs, p.len() as int, x);
    }
}

/// A find changes no root and keeps every link within its component.
proof fn lemma_find_joined(pairs: Seq<(usize, usize)>, p: Seq<usize>, q: Seq<usize>)
    requires
        uf_ok(p),
        q.len() == p.len(),
        links_joined(pairs, p),
        forall|y: int| 0 <= y < p.len() ==> #[trigger] root(q, y) == root(p, y),
        forall|y: int| 0 <= y < p.len() ==> #[trigger] q[y] == p[y] || q[y] == root(p, y),
    ensures
        links_joined(pairs, q),
        mono(p, q),
{
    assert forall|y: int| 0 <= y < q.len() implies #[trigger] joined(pairs, q.len() as int, y, q[y] as int) by {
        if q[y] != p[y] {
            lemma_root_joined(pairs, p, y);
        }
    }
    assert forall|i: int, j: int| 0 <= i < p.len() && 0 <= j < p.len() && #[trigger] same(p, i, j) implies same(q, i, j) by {
        assert(root(q, i) == root(p, i));
        assert(root(q, j) == root(p, j));
    }
}

/// Along a path, every step joins two nodes of one root.
proof fn lemma_path_same(pairs: Seq<(usize, usize)>, n: int, p: Seq<usize>, c: Seq<int>, k: int)
    requires
        p.len() == n,
        forall|t: int| 0 <= t < pairs.len() ==> #[trigger] same(p, pairs[t].0 as int, pairs[t].1 as int),
        is_path(pairs, n, c),
        0 <= k < c.len(),
    ensures
        same(p, c[0], c[k]),
    decreases k,
{
    if k > 0 {
        lemma_path_same(pairs, n, p, c, k - 1);
        let k0 = k - 1;
        assert(pair_edge(pairs, c[k0], c[k0 + 1]));
        let t = choose|t: int| 0 <= t < pairs.len()
            && ((#[trigger] pairs[t].0 == c[k0] && pairs[t].1 == c[k0 + 1]) || (pairs[t].0 == c[k0 + 1] && pairs[t].1 == c[k0]));
        assert(same(p, pairs[t].0 as int, pairs[t].1 as int));
    }
}

/// Label `v` is given to some index already.
spec fn label_seen(labels: Seq<usize>, v: int) -> bool {
    exists|j: int| 0 <= j < labels.len() && labels[j] == v
}

/// Cluster labels for `n` indices: the connected components of `pairs`,
/// numbered 0, 1, 2, … in the order in which each component first appears.
pub fn component_labels(n: usize, pairs: &[(usize, usize)]) -> (labels: Vec<usize>)
    requires
        forall|t: int| 0 <= t < pairs@.len() ==> #[trigger] pairs@[t].0 < n && pairs@[t].1 < n,
    ensures
        labels@.len() == n,
        forall|i: int, j: int| 0 <= i < n && 0 <= j < n
            ==> (labels@[i] == labels@[j] <==> #[trigger] joined(pairs@, n as int, i, j)),
        forall|i: int| 0 <= i < n ==> #[trigger] labels@[i] == 0
            || exists|j: int| 0 <= j < i && labels@[i] <= labels@[j] + 1,
{
    let ghost ps = pairs@;
    let mut parent: Vec<usize> = Vec::new();
    let mut i: usize = 0;
    while i < n
        invariant
            i <= n,
            parent@.len() == i,
            forall|y: int| 0 <= y < i ==> #[trigger] parent@[y] == y,
        decreases n - i,
    {
        parent.push(i);
        i = i + 1;
    }
    proof {
        assert forall|y: int| 0 <= y < n implies #[trigger] joined(ps, n as int, y, parent@[y] as int) by {
            lemma_joined_refl(ps, n as int, y);
        }
    }
    let mut t: usize = 0;
    while t < pairs.len()
        invariant
            ps == pairs@,
            forall|u: int| 0 <= u < ps.len() ==> #[trigger] ps[u].0 < n && ps[u].1 < n,
            t <= ps.len(),
            parent@.len() == n,
            uf_ok(parent@),
            links_joined(ps, parent@),
            forall|u: int| 0 <= u < t ==> #[trigger] same(parent@, ps[u].0 as int, ps[u].1 as int),
        decreases ps.len() - t,
    {
        let (x, y) = pairs[t];
        proof {
            assert(x == ps[t as int].0 && y == ps[t as int].1);
        }
        let ghost p0 = parent@;
        let ra = uf_find(&mut parent, x);
        let ghost p1 = parent@;
        let rb = uf_find(&mut parent, y);
        let ghost p2 = parent@;
        proof {
            lemma_find_joined(ps, p0, p1);
            lemma_find_joined(ps, p1, p2);
            lemma_mono_trans(p0, p1, p2);
            lemma_root(p2, x as int);
            lemma_root(p2, y as int);
        }
        if ra != rb {
            proof {
                lemma_joined_edge(ps, n as int, t as int);
                lemma_root_joined(ps, p2, x as int);
                lemma_root_joined(ps, p2, y as int);
                lemma_joined_sym(ps, n as int, x as int, ra as int);
                lemma_joined_trans(ps, n as int, ra as int, x as int, y as int);
                lemma_joined_trans(ps, n as int, ra as int, y as int, rb as int);
                lemma_joined_sym(ps, n as int, ra as int, rb as int);
            }
            let (hi, lo) = if ra < rb { (rb, ra) } else { (ra, rb) };
            parent.set(hi, lo);
            proof {
                let q = parent@;
                assert(q == p2.update(hi as int, lo));
                assert forall|z: int| 0 <= z < n implies #[trigger] root(q, z)
                    == (if root(p2, z) == hi { lo as int } else { root(p2, z) }) by {
                    lemma_root_union(p2, hi as int, lo, z);
                }
                lemma_root_union(p2, hi as int, lo, 0);
                assert forall|z: int| 0 <= z < q.len() implies #[trigger] joined(ps, q.len() as int, z, q[z] as int) by {
                    if z != hi {
                        assert(q[z] == p2[z]);
                    }
                }
                assert forall|a: int, c: int| 0 <= a < n && 0 <= c < n && #[trigger] same(p2, a, c) implies same(q, a, c) by {
                    assert(root(q, a) == (if root(p2, a) == hi { lo as int } else { root(p2, a) }));
                    assert(root(q, c) == (if root(p2, c) == hi { lo as int } else { root(p2, c) }));
                }
                assert(mono(p2, q));
                lemma_mono_trans(p0, p2, q);
                assert(same(q, x as int, y as int));
            }
        }
        proof {
            let q = parent@;
            assert forall|u: int| 0 <= u < t + 1 implies #[trigger] same(q, ps[u].0 as int, ps[u].1 as int) by {
                if u < t {
                    assert(same(p0, ps[u].0 as int, ps[u].1 as int));
                }
            }
        }
        t = t + 1;
    }
    // Relabel the roots 0, 1, 2, … in order of first appearance.
    let ghost pf = parent@;
    proof {
        assert forall|a: int, c: int| 0 <= a < n && 0 <= c < n implies (same(pf, a, c) <==> #[trigger] joined(ps, n as int, a, c)) by {
            if same(pf, a, c) {
                lemma_root_joined(ps, pf, a);
                lemma_root_joined(ps, pf, c);
                lemma_joined_sym(ps, n as int, c, root(pf, c));
                lemma_joined_trans(ps, n as int, a, root(pf, a), c);
            }
            if joined(ps, n as int, a, c) {
                let path = choose|path: Seq<int>| #[trigger] is_path(ps, n as int, path) && path[0] == a && path.last() == c;
                lemma_path_same(ps, n as int, pf, path, path.len() - 1);
            }
        }
    }
    let mut lab: Vec<usize> = Vec::new();
    i = 0;
    while i < n
        invariant
            i <= n,
            lab@.len() == i,
            forall|y: int| 0 <= y < i ==> #[trigger] lab@[y] == usize::MAX,
        decreases n - i,
    {
        lab.push(usize::MAX);
        i = i + 1;
    }
    let mut labels: Vec<usize> = Vec::new();
    let mut next: usize = 0;
    i = 0;
    while i < n
        invariant
            i <= n,
            pf.len() == n,
            uf_ok(pf),
            parent@.len() == n,
            uf_ok(parent@),
            forall|y: int| 0 <= y < n ==> #[trigger] root(parent@, y) == root(pf, y),
            lab@.len() == n,
            labels@.len() == i,
            next <= i,
            forall|j: int| 0 <= j < i ==> #[trigger] labels@[j] == lab@[root(pf, j)],
            forall|x: int| 0 <= x < n ==> (#[trigger] lab@[x] != usize::MAX
                <==> exists|j: int| 0 <= j < i && root(pf, j) == x),
            forall|x: int| 0 <= x < n && #[trigger] lab@[x] != usize::MAX ==> lab@[x] < next,
            forall|x: int, y: int| 0 <= x < n && 0 <= y < n && x != y && #[trigger] lab@[x] != usize::MAX
                && #[trigger] lab@[y] != usize::MAX ==> lab@[x] != lab@[y],
            forall|v: int| 0 <= v < next ==> #[trigger] label_seen(labels@, v),
            forall|j: int| 0 <= j < i ==> #[trigger] labels@[j] == 0
                || exists|j2: int| 0 <= j2 < j && labels@[j] <= labels@[j2] + 1,
        decreases n - i,
    {
        let ghost pb = parent@;
        let rt = uf_find(&mut parent, i);
        proof {
            lemma_root(pf, i as int);
            assert(rt as int == root(pf, i as int));
            assert forall|y: int| 0 <= y < n implies #[trigger] root(parent@, y) == root(pf, y) by {
                assert(root(parent@, y) == root(pb, y));
            }
        }
        let ghost l0 = lab@;
        let ghost lb = labels@;
        if lab[rt] == usize::MAX {
            proof {
                assert forall|j: int| 0 <= j < i implies root(pf, j) != rt by {
                    if root(pf, j) == rt {
                        assert(exists|j2: int| 0 <= j2 < i && root(pf, j2) == rt);
                    }
                }
            }
            lab.set(rt, next);
            next = next + 1;
            proof {
                assert forall|x: int| 0 <= x < n implies (#[trigger] lab@[x] != usize::MAX
                    <==> exists|j: int| 0 <= j < i + 1 && root(pf, j) == x) by {
                    if x == rt {
                        assert(root(pf, i as int) == x);
                    } else {
                        assert(lab@[x] == l0[x]);
                        if exists|j: int| 0 <= j < i + 1 && root(pf, j) == x {
                            let j = choose|j: int| 0 <= j < i + 1 && root(pf, j) == x;
                            assert(j < i);
                        }
                    }
                }
            }
        }
        let l = lab[rt];
        labels.push(l);
        proof {
            let lb2 = labels@;
            assert(lb2 == lb.push(l));
            assert forall|j: int| 0 <= j < i + 1 implies #[trigger] lb2[j] == lab@[root(pf, j)] by {
                if j < i {
                    assert(lb2[j] == lb[j]);
                    assert(lb[j] == l0[root(pf, j)]);
                    lemma_root(pf, j);
                    if root(pf, j) == rt {
                        assert(exists|j2: int| 0 <= j2 < i && root(pf, j2) == rt);
                    }
                }
            }
            assert forall|v: int| 0 <= v < next implies #[trigger] label_seen(lb2, v) by {
                if v == next - 1 && l0[rt as int] == usize::MAX {
                    assert(lb2[i as int] == v);
                } else {
                    assert(label_seen(lb, v));
                    let j = choose|j: int| 0 <= j < lb.len() && lb[j] == v;
                    assert(lb2[j] == v);
                }
            }
            assert forall|j: int| 0 <= j < i + 1 implies #[trigger] lb2[j] == 0
                || exists|j2: int| 0 <= j2 < j && lb2[j] <= lb2[j2] + 1 by {
                if j < i {
                    assert(lb2[j] == lb[j]);
                    if lb[j] != 0 {
                        let j2 = choose|j2: int| 0 <= j2 < j && lb[j] <= lb[j2] + 1;
                        assert(lb2[j2] == lb[j2]);
                    }
                } else if l != 0 {
                    if l0[rt as int] == usize::MAX {
                        let v = l - 1;
                        assert(label_seen(lb, v));
                        let j2 = choose|j2: int| 0 <= j2 < lb.len() && lb[j2] == v;
                        assert(lb2[j2] == lb[j2]);
                    } else {
                        let j2 = choose|j2: int| 0 <= j2 < i && root(pf, j2) == rt;
                        lemma_root(pf, j2);
                        assert(lb[j2] == l0[root(pf, j2)]);
                        assert(lb2[j2] == lb[j2]);
                    }
                }
            }
        }
        i = i + 1;
    }
    proof {
        assert forall|a: int, c: int| 0 <= a < n && 0 <= c < n
            implies (labels@[a] == labels@[c] <==> #[trigger] joined(ps, n as int, a, c)) by {
            lemma_root(pf, a);
            lemma_root(pf, c);
            assert(lab@[root(pf, a)] != usize::MAX);
            assert(lab@[root(pf, c)] != usize::MAX);
            assert(same(pf, a, c) <==> joined(ps, n as int, a, c));
        }
    }
    labels
}

} // verus!
