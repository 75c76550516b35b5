//! Near-duplicate collapse: whitespace shingles hashed per window, and a
//! `k`-permutation MinHash signature over them.

use vstd::prelude::*;
use vstd::utf8::encode_utf8;
use crate::text::{ws_tokens, split_ws, hash_str, fnv1a};
use crate::stat::poly::{poly, two64, lemma_horner_step, lemma_poly_nonneg, lemma_poly_one_digit_apart};

verus! {

/// The hash of one token.
pub open spec fn token_hash(t: Seq<char>) -> u64 {
    fnv1a(encode_utf8(t))
}

/// Polynomial (base 131, wrapping) combination of the hashes of the `k`
/// tokens starting at `i`.
pub open spec fn window_hash(toks: Seq<Seq<char>>, i: int, k: nat) -> u64
    decreases k,
{
    if k == 0 {
        0
    } else {
        window_hash(toks, i, (k - 1) as nat).wrapping_mul(131).wrapping_add(token_hash(toks[i + k - 1]))
    }
}

/// The token hashes of the `k`-token window starting at `i`, in order.
pub open spec fn window_digits(toks: Seq<Seq<char>>, i: int, k: nat) -> Seq<u64> {
    Seq::new(k, |j: int| token_hash(toks[i + j]))
}

/// A window's hash reads every token of the window: it is the window's
/// token hashes, first token most significant, as a base-131 number modulo
/// 2^64.
pub proof fn lemma_window_hash_reads_every_token(toks: Seq<Seq<char>>, i: int, k: nat)
    ensures
        window_hash(toks, i, k) as int == poly(window_digits(toks, i, k), 131) % two64(),
    decreases k,
{
    let d = window_digits(toks, i, k);
    if k == 0 {
        assert(poly(d, 131) == 0);
    } else {
        let e = window_digits(toks, i, (k - 1) as nat);
        lemma_window_hash_reads_every_token(toks, i, (k - 1) as nat);
        lemma_poly_nonneg(e, 131);
        let x = token_hash(toks[i + k - 1]);
        lemma_horner_step(window_hash(toks, i, (k - 1) as nat), e, x, 131);
        assert(e.push(x) =~= d);
    }
}

/// The shingle hashes of a token list: one per window of `w` consecutive
/// tokens, or one per token when there are fewer than `w` tokens.
pub open spec fn shingles_of(toks: Seq<Seq<char>>, w: nat) -> Seq<u64> {
    if toks.len() < w {
        Seq::new(toks.len(), |i: int| token_hash(toks[i]))
    } else {
        Seq::new((toks.len() - w + 1) as nat, |i: int| window_hash(toks, i, w))
    }
}

/// Two `w`-token windows whose token hashes differ in exactly one place get
/// different window hashes.
pub proof fn lemma_one_token_apart_windows_differ(a: Seq<Seq<char>>, i: int, c: Seq<Seq<char>>, j: int, w: nat, k: int)
    requires
        0 <= k < w,
        window_digits(a, i, w)[k] != window_digits(c, j, w)[k],
        forall|q: int| 0 <= q < w && q != k ==> #[trigger] window_digits(a, i, w)[q] == window_digits(c, j, w)[q],
    ensures
        window_hash(a, i, w) != window_hash(c, j, w),
{
    lemma_window_hash_reads_every_token(a, i, w);
    lemma_window_hash_reads_every_token(c, j, w);
    assert((131int * 281629680514649643int) % two64() == 1);
    lemma_poly_one_digit_apart(window_digits(a, i, w), window_digits(c, j, w), k, 131, 281629680514649643);
}

/// Each shingle of a text with at least `w` tokens is its window's token
/// hashes read as a base-131 number modulo 2^64, so windows that differ in
/// any token are read whole.
pub proof fn lemma_shingle_reads_its_window(toks: Seq<Seq<char>>, w: nat, i: int)
    requires
        toks.len() >= w,
        0 <= i < toks.len() - w + 1,
    ensures
        shingles_of(toks, w)[i] as int == poly(window_digits(toks, i, w), 131) % two64(),
{
    lemma_window_hash_reads_every_token(toks, i, w);
}

/// Split `text` into `w`-token shingles (whitespace tokens), each hashed.
pub fn shingle(text: &str, w: usize) -> (res: Vec<u64>)
    ensures
        res@ == shingles_of(ws_tokens(text@), w as nat),
{
    let tokens = split_ws(text);
    let ghost toks = ws_tokens(text@);
    let n = tokens.len();
    let mut out: Vec<u64> = Vec::new();
    if n < w {
        let mut i: usize = 0;
        while i < n
            invariant
                n == tokens@.len(),
                tokens@.len() == toks.len(),
                forall|k: int| 0 <= k < n ==> (#[trigger] tokens@[k])@ == toks[k],
                i <= n,
                out@ == Seq::new(i as nat, |k: int| token_hash(toks[k])),
            decreases n - i,
        {
            let h = hash_str(tokens[i]);
            out.push(h);
            proof {
                assert(out@ =~= Seq::new((i + 1) as nat, |k: int| token_hash(toks[k])));
            }
            i = i + 1;
        }
        return out;
    }
    let last = n - w;
    let mut i: usize = 0;
    loop
        invariant_except_break
            i <= last,
            out@ == Seq::new(i as nat, |k: int| window_hash(toks, k, w as nat)),
        invariant
            n == tokens@.len(),
            tokens@.len() == toks.len(),
            forall|k: int| 0 <= k < n ==> (#[trigger] tokens@[k])@ == toks[k],
            w <= n,
            last == n - w,
        ensures
            out@ == Seq::new((last + 1) as nat, |k: int| window_hash(toks, k, w as nat)),
        decreases last - i,
    {
        let mut h: u64 = 0;
        let mut j: usize = 0;
        while j < w
            invariant
                n == tokens@.len(),
                tokens@.len() == toks.len(),
                forall|k: int| 0 <= k < n ==> (#[trigger] tokens@[k])@ == toks[k],
                i + w <= n,
                j <= w,
                h == window_hash(toks, i as int, j as nat),
            decreases w - j,
        {
            let t = hash_str(tokens[i + j]);
            h = h.wrapping_mul(131).wrapping_add(t);
            j = j + 1;
        }
        out.push(h);
        proof {
            assert(out@ =~= Seq::new((i + 1) as nat, |k: int| window_hash(toks, k, w as nat)));
        }
        if i == last {
            break;
        }
        i = i + 1;
    }
    out
}

/// The splitmix64 finaliser.
pub open spec fn splitmix64_spec(z: u64) -> u64 {
    let z = z.wrapping_add(0x9E3779B97F4A7C15u64);
    let z = (z ^ (z >> 30u64)).wrapping_mul(0xBF58476D1CE4E5B9u64);
    let z = (z ^ (z >> 27u64)).wrapping_mul(0x94D049BB133111EBu64);
    z ^ (z >> 31u64)
}

pub fn splitmix64(z: u64) -> (r: u64)
    ensures
        r == splitmix64_spec(z),
{
    let z = z.wrapping_add(0x9E3779B97F4A7C15u64);
    let z = (z ^ (z >> 30u64)).wrapping_mul(0xBF58476D1CE4E5B9u64);
    let z = (z ^ (z >> 27u64)).wrapping_mul(0x94D049BB133111EBu64);
    z ^ (z >> 31u64)
}

/// The seed of permutation `i`.
pub open spec fn perm_seed(i: u64) -> u64 {
    i.wrapping_mul(0x9E3779B97F4A7C15u64).wrapping_add(0x1234567u64)
}

/// The least of the permuted shingles `splitmix64(s ^ seed)`, starting
/// from `u64::MAX`.
pub open spec fn min_perm(shingles: Seq<u64>, seed: u64) -> u64
    decreases shingles.len(),
{
    if shingles.len() == 0 {
        u64::MAX
    } else {
        let m = min_perm(shingles.drop_last(), seed);
        let v = splitmix64_spec(shingles.last() ^ seed);
        if v < m { v } else { m }
    }
}

/// `min_perm` is the least permuted shingle: none is below it, and it is
/// `u64::MAX` or the value of one of them.
proof fn lemma_min_perm(shingles: Seq<u64>, seed: u64)
    ensures
        forall|k: int| 0 <= k < shingles.len() ==> min_perm(shingles, seed) <= #[trigger] splitmix64_spec(shingles[k] ^ seed),
        min_perm(shingles, seed) == u64::MAX || exists|k: int| 0 <= k < shingles.len()
            && min_perm(shingles, seed) == #[trigger] splitmix64_spec(shingles[k] ^ seed),
    decreases shingles.len(),
{
    if shingles.len() > 0 {
        let t = shingles.drop_last();
        lemma_min_perm(t, seed);
        assert forall|k: int| 0 <= k < shingles.len() implies min_perm(shingles, seed) <= #[trigger] splitmix64_spec(shingles[k] ^ seed) by {
            if k < t.len() {
                assert(shingles[k] == t[k]);
                assert(min_perm(t, seed) <= splitmix64_spec(t[k] ^ seed));
            }
        }
        if min_perm(shingles, seed) != u64::MAX {
            if splitmix64_spec(shingles.last() ^ seed) < min_perm(t, seed) {
                assert(min_perm(shingles, seed) == splitmix64_spec(shingles[shingles.len() - 1] ^ seed));
            } else {
                let k = choose|k: int| 0 <= k < t.len() && min_perm(t, seed) == #[trigger] splitmix64_spec(t[k] ^ seed);
                assert(shingles[k] == t[k]);
            }
        }
    }
}

/// A signature entry depends on the set of shingles alone: lists with the
/// same elements, in any order and with any repeats, agree.
pub proof fn lemma_min_perm_of_set(a: Seq<u64>, b: Seq<u64>, seed: u64)
    requires
        a.to_set() == b.to_set(),
    ensures
        min_perm(a, seed) == min_perm(b, seed),
{
    lemma_min_perm(a, seed);
    lemma_min_perm(b, seed);
    assert forall|x: u64| a.contains(x) <==> b.contains(x) by {
        assert(a.to_set().contains(x) <==> a.contains(x));
        assert(b.to_set().contains(x) <==> b.contains(x));
    }
    if min_perm(a, seed) != u64::MAX {
        let k = choose|k: int| 0 <= k < a.len() && min_perm(a, seed) == #[trigger] splitmix64_spec(a[k] ^ seed);
        assert(a.contains(a[k]));
        let l = choose|l: int| 0 <= l < b.len() && b[l] == a[k];
        assert(min_perm(b, seed) <= splitmix64_spec(b[l] ^ seed));
    }
    if min_perm(b, seed) != u64::MAX {
        let k = choose|k: int| 0 <= k < b.len() && min_perm(b, seed) == #[trigger] splitmix64_spec(b[k] ^ seed);
        assert(b.contains(b[k]));
        let l = choose|l: int| 0 <= l < a.len() && a[l] == b[k];
        assert(min_perm(a, seed) <= splitmix64_spec(a[l] ^ seed));
    }
}

/// The signature of two shingle lists together is the entrywise minimum of
/// their signatures.
pub proof fn lemma_min_perm_concat(a: Seq<u64>, b: Seq<u64>, seed: u64)
    ensures
        min_perm(a + b, seed) == (if min_perm(a, seed) <= min_perm(b, seed) { min_perm(a, seed) } else { min_perm(b, seed) }),
    decreases b.len(),
{
    if b.len() == 0 {
        assert(a + b =~= a);
    } else {
        lemma_min_perm_concat(a, b.drop_last(), seed);
        assert((a + b).drop_last() =~= a + b.drop_last());
        assert((a + b).last() == b.last());
    }
}

/// MinHash signature of `k` permutations over the shingle set: entry `i`
/// is the least `splitmix64(s ^ seed_i)` over the shingles (`u64::MAX` for
/// no shingles).
pub fn minhash(shingles: &[u64], k: usize) -> (res: Vec<u64>)
    ensures
        res@.len() == k,
        forall|i: int| 0 <= i < k ==> #[trigger] res@[i] == min_perm(shingles@, perm_seed(i as u64)),
{
    let mut out: Vec<u64> = Vec::new();
    let mut i: usize = 0;
    while i < k
        invariant
            i <= k,
            out@.len() == i,
            forall|a: int| 0 <= a < i ==> #[trigger] out@[a] == min_perm(shingles@, perm_seed(a as u64)),
        decreases k - i,
    {
        let seed = (i as u64).wrapping_mul(0x9E3779B97F4A7C15u64).wrapping_add(0x1234567u64);
        let mut m: u64 = u64::MAX;
        let mut t: usize = 0;
        while t < shingles.len()
            invariant
                t <= shingles@.len(),
                seed == perm_seed(i as u64),
                m == min_perm(shingles@.take(t as int), seed),
            decreases shingles@.len() - t,
        {
            proof {
                assert(shingles@.take(t + 1).drop_last() =~= shingles@.take(t as int));
            }
            let v = splitmix64(shingles[t] ^ seed);
            if v < m {
                m = v;
            }
            t = t + 1;
        }
        proof {
            assert(shingles@.take(shingles@.len() as int) =~= shingles@);
        }
        out.push(m);
        i = i + 1;
    }
    out
}

} // verus!
