//! LSH banding over MinHash signatures: indices whose signatures agree on
//! every row of at least one band are joined, and the groups are the
//! connected components of that relation.

use vstd::prelude::*;
use rustc_hash::FxHashMap;
use crate::stat::poly::{poly, two64, lemma_horner_step, lemma_poly_nonneg, lemma_poly_one_digit_apart};
use crate::stat::union_find::{
    lemma_mono_trans, lemma_root, lemma_root_union, mono, root, same, uf_find, uf_ok,
};

verus! {

// ---------------------------------------------------------------------------
// Band keys and the relation they induce.

/// Row `i` of a signature, or 0 past its end.
pub open spec fn row_val(sig: Seq<u64>, i: int) -> u64 {
    if 0 <= i < sig.len() {
        sig[i]
    } else {
        0
    }
}

/// Hash of the first `m` rows of band `band` (base 137, wrapping).
pub open spec fn band_hash_upto(sig: Seq<u64>, band: int, r: int, m: int) -> u64
    decreases m,
{
    if m <= 0 {
        0
    } else {
        band_hash_upto(sig, band, r, m - 1).wrapping_mul(137).wrapping_add(row_val(sig, band * r + m - 1))
    }
}

/// The bucket key of a signature in band `band` of `r` rows.
pub open spec fn band_key(sig: Seq<u64>, band: int, r: int) -> u64 {
    band_hash_upto(sig, band, r, r)
}

/// The `r` rows of band `band`, in order (0 past the signature's end).
pub open spec fn band_rows(sig: Seq<u64>, band: int, r: int) -> Seq<u64> {
    Seq::new(r as nat, |k: int| row_val(sig, band * r + k))
}

proof fn lemma_band_hash_poly(sig: Seq<u64>, band: int, r: int, m: int)
    requires
        0 <= m,
    ensures
        band_hash_upto(sig, band, r, m) as int
            == poly(Seq::new(m as nat, |k: int| row_val(sig, band * r + k)), 137) % two64(),
    decreases m,
{
    let d = Seq::new(m as nat, |k: int| row_val(sig, band * r + k));
    if m == 0 {
        assert(poly(d, 137) == 0);
    } else {
        let e = Seq::new((m - 1) as nat, |k: int| row_val(sig, band * r + k));
        lemma_band_hash_poly(sig, band, r, m - 1);
        lemma_poly_nonneg(e, 137);
        let x = row_val(sig, band * r + m - 1);
        lemma_horner_step(band_hash_upto(sig, band, r, m - 1), e, x, 137);
        assert(e.push(x) =~= d);
    }
}

/// A band key reads every row of its band: it is the band's rows, most
/// significant first, as a base-137 number modulo 2^64.
pub proof fn lemma_band_key_reads_every_row(sig: Seq<u64>, band: int, r: int)
    requires
        r >= 0,
    ensures
        band_key(sig, band, r) as int == poly(band_rows(sig, band, r), 137) % two64(),
{
    lemma_band_hash_poly(sig, band, r, r);
}

/// Two signatures whose rows in a band differ in exactly one row get
/// different keys in that band.
pub proof fn lemma_one_row_apart_keys_differ(s: Seq<u64>, t: Seq<u64>, band: int, r: int, k: int)
    requires
        0 <= k < r,
        band_rows(s, band, r)[k] != band_rows(t, band, r)[k],
        forall|j: int| 0 <= j < r && j != k ==> #[trigger] band_rows(s, band, r)[j] == band_rows(t, band, r)[j],
    ensures
        band_key(s, band, r) != band_key(t, band, r),
{
    lemma_band_key_reads_every_row(s, band, r);
    lemma_band_key_reads_every_row(t, band, r);
    assert((137int * 16292379802327414201int) % two64() == 1);
    lemma_poly_one_digit_apart(band_rows(s, band, r), band_rows(t, band, r), k, 137, 16292379802327414201);
}

/// Two signatures collide only where, in some band, their rows read as
/// base-137 numbers agree modulo 2^64.
pub proof fn lemma_collide_agrees_on_a_band(sigs: Seq<Vec<u64>>, b: int, r: int, i: int, j: int)
    requires
        r >= 0,
        collide(sigs, b, r, i, j),
    ensures
        exists|band: int| 0 <= band < b
            && #[trigger] (poly(band_rows(sigs[i]@, band, r), 137) % two64())
                == poly(band_rows(sigs[j]@, band, r), 137) % two64(),
{
    let band = choose|band: int| 0 <= band < b && #[trigger] band_key(sigs[i]@, band, r) == band_key(sigs[j]@, band, r);
    lemma_band_key_reads_every_row(sigs[i]@, band, r);
    lemma_band_key_reads_every_row(sigs[j]@, band, r);
}

/// Signatures `i` and `j` share a bucket in some band.
pub open spec fn collide(sigs: Seq<Vec<u64>>, b: int, r: int, i: int, j: int) -> bool {
    exists|band: int| 0 <= band < b && #[trigger] band_key(sigs[i]@, band, r) == band_key(sigs[j]@, band, r)
}

/// `p` is a chain of colliding signatures.
pub open spec fn is_chain(sigs: Seq<Vec<u64>>, b: int, r: int, p: Seq<int>) -> bool {
    &&& p.len() >= 1
    &&& forall|k: int| 0 <= k < p.len() ==> 0 <= #[trigger] p[k] < sigs.len()
    &&& forall|k: int| 0 <= k < p.len() - 1 ==> #[trigger] collide(sigs, b, r, p[k], p[k + 1])
}

/// `i` and `j` are joined by a chain of collisions.
pub open spec fn linked(sigs: Seq<Vec<u64>>, b: int, r: int, i: int, j: int) -> bool {
    exists|p: Seq<int>| #[trigger] is_chain(sigs, b, r, p) && p[0] == i && p.last() == j
}

proof fn lemma_linked_refl(sigs: Seq<Vec<u64>>, b: int, r: int, i: int)
    requires
        0 <= i < sigs.len(),
    ensures
        linked(sigs, b, r, i, i),
{
    let p = seq![i];
    assert(is_chain(sigs, b, r, p));
}

proof fn lemma_linked_collide(sigs: Seq<Vec<u64>>, b: int, r: int, i: int, j: int)
    requires
        0 <= i < sigs.len(),
        0 <= j < sigs.len(),
        collide(sigs, b, r, i, j),
    ensures
        linked(sigs, b, r, i, j),
{
    let p = seq![i, j];
    assert(collide(sigs, b, r, p[0], p[1]));
    assert(is_chain(sigs, b, r, p));
}

proof fn lemma_linked_sym(sigs: Seq<Vec<u64>>, b: int, r: int, i: int, j: int)
    requires
        linked(sigs, b, r, i, j),
    ensures
        linked(sigs, b, r, j, i),
{
    let p = choose|p: Seq<int>| #[trigger] is_chain(sigs, b, r, p) && p[0] == i && p.last() == j;
    let q = p.reverse();
    assert forall|k: int| 0 <= k < q.len() - 1 implies #[trigger] collide(sigs, b, r, q[k], q[k + 1]) by {
        let a = p.len() - 1 - k;
        let k0 = a - 1;
        assert(q[k] == p[a] && q[k + 1] == p[k0]);
        assert(collide(sigs, b, r, p[k0], p[k0 + 1]));
        assert(p[k0 + 1] == p[a]);
        let band = choose|band: int| 0 <= band < b && #[trigger] band_key(sigs[p[a - 1]]@, band, r) == band_key(sigs[p[a]]@, band, r);
        assert(band_key(sigs[q[k]]@, band, r) == band_key(sigs[q[k + 1]]@, band, r));
    }
    assert forall|k: int| 0 <= k < q.len() implies 0 <= #[trigger] q[k] < sigs.len() by {
        assert(q[k] == p[p.len() - 1 - k]);
    }
    assert(is_chain(sigs, b, r, q));
}

proof fn lemma_linked_trans(sigs: Seq<Vec<u64>>, b: int, r: int, i: int, j: int, k: int)
    requires
        linked(sigs, b, r, i, j),
        linked(sigs, b, r, j, k),
    ensures
        linked(sigs, b, r, i, k),
{
    let p = choose|p: Seq<int>| #[trigger] is_chain(sigs, b, r, p) && p[0] == i && p.last() == j;
    let q = choose|q: Seq<int>| #[trigger] is_chain(sigs, b, r, q) && q[0] == j && q.last() == k;
    let c = p + q.drop_first();
    assert forall|t: int| 0 <= t < c.len() implies 0 <= #[trigger] c[t] < sigs.len() by {
        if t < p.len() {
            assert(c[t] == p[t]);
        } else {
            assert(c[t] == q[t - p.len() + 1]);
        }
    }
    assert forall|t: int| 0 <= t < c.len() - 1 implies #[trigger] collide(sigs, b, r, c[t], c[t + 1]) by {
        if t < p.len() - 1 {
            assert(c[t] == p[t] && c[t + 1] == p[t + 1]);
        } else if t == p.len() - 1 {
            assert(c[t] == q[0] && c[t + 1] == q[1]);
        } else {
            let s = t - p.len() + 1;
            assert(c[t] == q[s] && c[t + 1] == q[s + 1]);
        }
    }
    assert(is_chain(sigs, b, r, c));
}

/// Every node is linked to its root when every parent link is a link.
proof fn lemma_root_linked(sigs: Seq<Vec<u64>>, b: int, r: int, p: Seq<usize>, x: int)
    requires
        uf_ok(p),
        p.len() == sigs.len(),
        forall|y: int| 0 <= y < p.len() ==> #[trigger] linked(sigs, b, r, y, p[y] as int),
        0 <= x < p.len(),
    ensures
        linked(sigs, b, r, x, root(p, x)),
    decreases x,
{
    if p[x] < x {
        lemma_root_linked(sigs, b, r, p, p[x] as int);
        lemma_linked_trans(sigs, b, r, x, p[x] as int, root(p, p[x] as int));
    } else {
        lemma_linked_refl(sigs, b, r, x);
    }
}

/// Every parent link joins linked signatures.
pub open spec fn linked_all(sigs: Seq<Vec<u64>>, b: int, r: int, p: Seq<usize>) -> bool {
    forall|y: int| 0 <= y < p.len() ==> #[trigger] linked(sigs, b, r, y, p[y] as int)
}

/// Signatures sharing the key of band `band` have one root.
pub open spec fn band_done(sigs: Seq<Vec<u64>>, r: int, p: Seq<usize>, band: int) -> bool {
    forall|i: int, j: int| 0 <= i < sigs.len() && 0 <= j < sigs.len()
        && #[trigger] band_key(sigs[i]@, band, r) == #[trigger] band_key(sigs[j]@, band, r) ==> same(p, i, j)
}

proof fn lemma_find_keeps(sigs: Seq<Vec<u64>>, b: int, r: int, p: Seq<usize>, q: Seq<usize>)
    requires
        uf_ok(p),
        p.len() == sigs.len(),
        q.len() == p.len(),
        linked_all(sigs, b, r, p),
        forall|y: int| 0 <= y < p.len() ==> #[trigger] root(q, y) == root(p, y),
        forall|y: int| 0 <= y < p.len() ==> #[trigger] q[y] == p[y] || q[y] == root(p, y),
    ensures
        linked_all(sigs, b, r, q),
        mono(p, q),
{
    assert forall|y: int| 0 <= y < q.len() implies #[trigger] linked(sigs, b, r, y, q[y] as int) by {
        if q[y] != p[y] {
            lemma_root_linked(sigs, b, r, p, y);
        }
    }
    assert forall|i: int, j: int| 0 <= i < p.len() && 0 <= j < p.len() && #[trigger] same(p, i, j) implies same(q, i, j) by {
        assert(root(q, i) == root(p, i));
        assert(root(q, j) == root(p, j));
    }
}

proof fn lemma_union_keeps(sigs: Seq<Vec<u64>>, b: int, r: int, p: Seq<usize>, mx: int, mn: usize)
    requires
        uf_ok(p),
        p.len() == sigs.len(),
        linked_all(sigs, b, r, p),
        0 <= mx < p.len(),
        p[mx] == mx,
        p[mn as int] == mn,
        mn < mx,
        linked(sigs, b, r, mx, mn as int),
    ensures
        uf_ok(p.update(mx, mn)),
        linked_all(sigs, b, r, p.update(mx, mn)),
        mono(p, p.update(mx, mn)),
        forall|y: int| 0 <= y < p.len() ==> #[trigger] root(p.update(mx, mn), y)
            == (if root(p, y) == mx { mn as int } else { root(p, y) }),
{
    let q = p.update(mx, mn);
    assert forall|y: int| 0 <= y < p.len() implies #[trigger] root(q, y) == (if root(p, y) == mx { mn as int } else { root(p, y) }) by {
        lemma_root_union(p, mx, mn, y);
    }
    lemma_root_union(p, mx, mn, 0);
    assert forall|y: int| 0 <= y < q.len() implies #[trigger] linked(sigs, b, r, y, q[y] as int) by {
        if y != mx {
            assert(q[y] == p[y]);
        }
    }
    assert forall|i: int, j: int| 0 <= i < p.len() && 0 <= j < p.len() && #[trigger] same(p, i, j) implies same(q, i, j) by {
        assert(root(q, i) == (if root(p, i) == mx { mn as int } else { root(p, i) }));
        assert(root(q, j) == (if root(p, j) == mx { mn as int } else { root(p, j) }));
    }
}

/// Along a chain, every pair collides in a finished band, so the ends share
/// a root.
proof fn lemma_chain_same(sigs: Seq<Vec<u64>>, b: int, r: int, p: Seq<usize>, c: Seq<int>, k: int)
    requires
        forall|band: int| 0 <= band < b ==> #[trigger] band_done(sigs, r, p, band),
        is_chain(sigs, b, r, c),
        0 <= k < c.len(),
    ensures
        same(p, c[0], c[k]),
    decreases k,
{
    if k > 0 {
        lemma_chain_same(sigs, b, r, p, c, k - 1);
        let k0 = k - 1;
        assert(collide(sigs, b, r, c[k0], c[k0 + 1]));
        let band = choose|band: int| 0 <= band < b && #[trigger] band_key(sigs[c[k0]]@, band, r) == band_key(sigs[c[k0 + 1]]@, band, r);
        assert(band_done(sigs, r, p, band));
        assert(c[k0] < sigs.len() && c[k0 + 1] < sigs.len());
        assert(same(p, c[k0], c[k0 + 1]));
    }
}

// ---------------------------------------------------------------------------
// The rustc-hash map the buckets live in. Each wrapper makes one call; its
// contract is what `std::collections::HashMap` documents for the call over
// the map's contents (`@`); the Fx hasher is a deterministic function of
// the key. Iteration order is left open.

/// `FxHashMap::default()`: no buckets.
#[verifier::external_body]
pub(crate) fn bucket_map_new() -> (m: FxHashMap<u64, Vec<usize>>)
    ensures
        m@.dom() == Set::<u64>::empty(),
{
    FxHashMap::default()
}

/// `entry(key).or_default().push(x)`: appends `x` to the bucket of `key`,
/// opening an empty bucket first when there is none.
#[verifier::external_body]
pub(crate) fn bucket_push(m: &mut FxHashMap<u64, Vec<usize>>, key: u64, x: usize)
    ensures
        final(m)@.dom() == old(m)@.dom().insert(key),
        final(m)@[key]@ == (if old(m)@.contains_key(key) { old(m)@[key]@ } else { Seq::<usize>::empty() }).push(x),
        forall|k: u64| k != key && old(m)@.contains_key(k) ==> #[trigger] final(m)@[k] == old(m)@[k],
{
    m.entry(key).or_default().push(x);
}

/// `keys()`, collected: each key once, in the map's iteration order.
#[verifier::external_body]
pub(crate) fn bucket_keys(m: &FxHashMap<u64, Vec<usize>>) -> (ks: Vec<u64>)
    ensures
        ks@.no_duplicates(),
        forall|k: u64| #[trigger] ks@.contains(k) <==> m@.contains_key(k),
{
    m.keys().copied().collect()
}

/// `m[&key]`: the bucket of a present key.
#[verifier::external_body]
pub(crate) fn bucket_get(m: &FxHashMap<u64, Vec<usize>>, key: u64) -> (v: &Vec<usize>)
    requires
        m@.contains_key(key),
    ensures
        *v == m@[key],
{
    &m[&key]
}

/// Strictly increasing.
pub open spec fn strict_usize(s: Seq<usize>) -> bool {
    forall|i: int, j: int| 0 <= i < j < s.len() ==> #[trigger] s[i] < #[trigger] s[j]
}

/// The buckets hold exactly the indices below `upto`, each under its key,
/// in increasing order.
pub open spec fn buckets_ok(m: Map<u64, Vec<usize>>, key: spec_fn(int) -> u64, upto: int) -> bool {
    &&& forall|k: u64| #[trigger] m.contains_key(k) ==> m[k]@.len() > 0 && strict_usize(m[k]@)
    &&& forall|k: u64, t: int| m.contains_key(k) && 0 <= t < m[k]@.len() ==> #[trigger] m[k]@[t] < upto
        && key(m[k]@[t] as int) == k
    &&& forall|i: int| 0 <= i < upto ==> #[trigger] in_bucket(m, key, i)
}

/// Index `i` is in the bucket of its key.
pub open spec fn in_bucket(m: Map<u64, Vec<usize>>, key: spec_fn(int) -> u64, i: int) -> bool {
    m.contains_key(key(i)) && m[key(i)]@.contains(i as usize)
}

pub(crate) proof fn lemma_buckets_push(m0: Map<u64, Vec<usize>>, m1: Map<u64, Vec<usize>>, key: spec_fn(int) -> u64, upto: int)
    requires
        0 <= upto < usize::MAX,
        buckets_ok(m0, key, upto),
        m1.dom() == m0.dom().insert(key(upto)),
        m1[key(upto)]@ == (if m0.contains_key(key(upto)) { m0[key(upto)]@ } else { Seq::<usize>::empty() }).push(upto as usize),
        forall|k: u64| k != key(upto) && m0.contains_key(k) ==> #[trigger] m1[k] == m0[k],
    ensures
        buckets_ok(m1, key, upto + 1),
{
    let h = key(upto);
    let old_row = if m0.contains_key(h) { m0[h]@ } else { Seq::<usize>::empty() };
    assert forall|k: u64| #[trigger] m1.contains_key(k) implies m1[k]@.len() > 0 && strict_usize(m1[k]@) by {
        if k == h {
            assert forall|i: int, j: int| 0 <= i < j < m1[k]@.len() implies #[trigger] m1[k]@[i] < #[trigger] m1[k]@[j] by {
                if j == m1[k]@.len() - 1 {
                    assert(m1[k]@[i] == old_row[i]);
                    assert(old_row[i] < upto);
                } else {
                    assert(m1[k]@[i] == old_row[i] && m1[k]@[j] == old_row[j]);
                }
            }
        }
    }
    assert forall|k: u64, t: int| m1.contains_key(k) && 0 <= t < m1[k]@.len() implies #[trigger] m1[k]@[t] < upto + 1
        && key(m1[k]@[t] as int) == k by {
        if k == h && t < m1[k]@.len() - 1 {
            assert(m1[k]@[t] == old_row[t]);
        }
    }
    assert forall|i: int| 0 <= i < upto + 1 implies #[trigger] in_bucket(m1, key, i) by {
        assert(m1.dom().contains(h));
        if i == upto {
            assert(m1.contains_key(h));
            assert(m1[h]@[m1[h]@.len() - 1] == upto as usize);
            assert(m1[h]@.contains(upto as usize));
        } else {
            assert(in_bucket(m0, key, i));
            assert(m1.dom().contains(key(i)));
            if key(i) == h {
                let t = choose|t: int| 0 <= t < m0[h]@.len() && m0[h]@[t] == i as usize;
                assert(old_row == m0[h]@);
                assert(m1[h]@[t] == i as usize);
            } else {
                assert(m1[key(i)] == m0[key(i)]);
            }
        }
    }
}

/// Which group an index is in, if any.
pub open spec fn grouped(groups: Seq<Vec<usize>>, i: int) -> bool {
    exists|g: int| 0 <= g < groups.len() && #[trigger] groups[g]@.contains(i as usize)
}

fn copy_indices(v: &Vec<usize>) -> (r: Vec<usize>)
    ensures
        r@ == v@,
{
    let mut r: Vec<usize> = Vec::new();
    let mut i: usize = 0;
    while i < v.len()
        invariant
            i <= v@.len(),
            r@ == v@.take(i as int),
        decreases v@.len() - i,
    {
        r.push(v[i]);
        proof {
            assert(v@.take(i + 1) =~= v@.take(i as int).push(v@[i as int]));
        }
        i = i + 1;
    }
    proof {
        assert(v@.take(v@.len() as int) =~= v@);
    }
    r
}

/// The bucket key of signature `idx` in band `band`.
fn band_key_of(sig: &Vec<u64>, band: usize, r: usize, b: usize) -> (h: u64)
    requires
        band < b,
        b * r <= usize::MAX,
    ensures
        h == band_key(sig@, band as int, r as int),
{
    let mut h: u64 = 0;
    let mut row: usize = 0;
    while row < r
        invariant
            row <= r,
            band < b,
            b * r <= usize::MAX,
            h == band_hash_upto(sig@, band as int, r as int, row as int),
        decreases r - row,
    {
        proof {
            assert(band * r + row < b * r) by (nonlinear_arith)
                requires
                    band < b,
                    row < r,
            ;
        }
        let pos = band * r + row;
        let v = if pos < sig.len() {
            sig[pos]
        } else {
            0
        };
        h = h.wrapping_mul(137).wrapping_add(v);
        row = row + 1;
    }
    h
}

/// LSH banding: join the indices whose signatures share a bucket in at
/// least one of `b` bands of `r` rows (a row past a signature's end reads
/// as 0), and return the groups of joined indices: the connected components
/// of that relation, each in increasing order, listed in the order the hash
/// map yields them.
#[verifier::rlimit(60)]
pub fn lsh_cluster(signatures: &[Vec<u64>], b: usize, r: usize) -> (groups: Vec<Vec<usize>>)
    requires
        b * r <= usize::MAX,
    ensures
        forall|g: int| 0 <= g < groups@.len() ==> #[trigger] groups@[g]@.len() > 0 && strict_usize(groups@[g]@),
        forall|g: int, t: int| 0 <= g < groups@.len() && 0 <= t < groups@[g]@.len()
            ==> #[trigger] groups@[g]@[t] < signatures@.len(),
        forall|i: int| 0 <= i < signatures@.len() ==> #[trigger] grouped(groups@, i),
        forall|g1: int, g2: int, i: usize| 0 <= g1 < groups@.len() && 0 <= g2 < groups@.len() && g1 != g2
            && #[trigger] groups@[g1]@.contains(i) ==> !#[trigger] groups@[g2]@.contains(i),
        forall|g: int, i: usize, j: usize| 0 <= g < groups@.len() && #[trigger] groups@[g]@.contains(i) && j < signatures@.len()
            ==> (groups@[g]@.contains(j) <==> #[trigger] linked(signatures@, b as int, r as int, i as int, j as int)),
{
    let n = signatures.len();
    let ghost sigs = signatures@;
    let ghost bi = b as int;
    let ghost ri = r as int;
    let mut parent: Vec<usize> = Vec::new();
    let mut i: usize = 0;
    while i < n
        invariant
            i <= n,
            n == sigs.len(),
            parent@.len() == i,
            forall|y: int| 0 <= y < i ==> #[trigger] parent@[y] == y,
        decreases n - i,
    {
        parent.push(i);
        i = i + 1;
    }
    proof {
        assert forall|y: int| 0 <= y < n implies #[trigger] linked(sigs, bi, ri, y, parent@[y] as int) by {
            lemma_linked_refl(sigs, bi, ri, y);
        }
    }
    let mut band: usize = 0;
    while band < b
        invariant
            n == sigs.len(),
            sigs == signatures@,
            bi == b,
            ri == r,
            b * r <= usize::MAX,
            band <= b,
            parent@.len() == n,
            uf_ok(parent@),
            linked_all(sigs, bi, ri, parent@),
            forall|beta: int| 0 <= beta < band ==> #[trigger] band_done(sigs, ri, parent@, beta),
        decreases b - band,
    {
        let ghost key = |k: int| band_key(sigs[k]@, band as int, ri);
        let mut buckets = bucket_map_new();
        let mut idx: usize = 0;
        while idx < n
            invariant
                n == sigs.len(),
                sigs == signatures@,
                idx <= n,
                band < b,
                b * r <= usize::MAX,
                ri == r,
                key == (|k: int| band_key(sigs[k]@, band as int, ri)),
                buckets_ok(buckets@, key, idx as int),
            decreases n - idx,
        {
            let h = band_key_of(&signatures[idx], band, r, b);
            let ghost m0 = buckets@;
            bucket_push(&mut buckets, h, idx);
            proof {
                assert(h == key(idx as int));
                lemma_buckets_push(m0, buckets@, key, idx as int);
            }
            idx = idx + 1;
        }
        let keys = bucket_keys(&buckets);
        let ghost p_band = parent@;
        let ghost bm = buckets@;
        let mut t: usize = 0;
        while t < keys.len()
            invariant
                n == sigs.len(),
                sigs == signatures@,
                bi == b,
                ri == r,
                band < b,
                bm == buckets@,
                key == (|k: int| band_key(sigs[k]@, band as int, ri)),
                buckets_ok(bm, key, n as int),
                keys@.no_duplicates(),
                forall|k: u64| #[trigger] keys@.contains(k) <==> bm.contains_key(k),
                t <= keys@.len(),
                p_band.len() == n,
                parent@.len() == n,
                uf_ok(parent@),
                linked_all(sigs, bi, ri, parent@),
                mono(p_band, parent@),
                forall|s: int, u: int| 0 <= s < t && 0 <= u < bm[keys@[s]]@.len()
                    ==> #[trigger] same(parent@, bm[keys@[s]]@[u] as int, bm[keys@[s]]@[0] as int),
            decreases keys@.len() - t,
        {
            proof {
                assert(keys@.contains(keys@[t as int]));
            }
            let group = bucket_get(&buckets, keys[t]);
            let ghost kt = keys@[t as int];
            let first = group[0];
            let mut q: usize = 1;
            proof {
                lemma_root(parent@, 0);
            }
            while q < group.len()
                invariant
                    n == sigs.len(),
                    sigs == signatures@,
                    bi == b,
                    ri == r,
                    band < b,
                    bm == buckets@,
                    key == (|k: int| band_key(sigs[k]@, band as int, ri)),
                    buckets_ok(bm, key, n as int),
                    bm.contains_key(kt),
                    *group == bm[kt],
                    t < keys@.len(),
                    forall|k: u64| #[trigger] keys@.contains(k) <==> bm.contains_key(k),
                    kt == keys@[t as int],
                    first == group@[0],
                    1 <= q <= group@.len(),
                    p_band.len() == n,
                    parent@.len() == n,
                    uf_ok(parent@),
                    linked_all(sigs, bi, ri, parent@),
                    mono(p_band, parent@),
                    forall|s: int, u: int| 0 <= s < t && 0 <= u < bm[keys@[s]]@.len()
                        ==> #[trigger] same(parent@, bm[keys@[s]]@[u] as int, bm[keys@[s]]@[0] as int),
                    forall|u: int| 0 <= u < q ==> #[trigger] same(parent@, group@[u] as int, first as int),
                decreases group@.len() - q,
            {
                let x = group[q];
                proof {
                    assert(first < n && key(first as int) == kt);
                    assert(x < n && key(x as int) == kt);
                }
                let ghost p0 = parent@;
                let ra = uf_find(&mut parent, first);
                let ghost p1 = parent@;
                let rb = uf_find(&mut parent, x);
                let ghost p2 = parent@;
                proof {
                    lemma_find_keeps(sigs, bi, ri, p0, p1);
                    lemma_find_keeps(sigs, bi, ri, p1, p2);
                    lemma_mono_trans(p0, p1, p2);
                    assert(ra as int == root(p2, first as int));
                    assert(rb as int == root(p2, x as int));
                    lemma_root(p2, first as int);
                    lemma_root(p2, x as int);
                }
                if ra != rb {
                    proof {
                        assert(band_key(sigs[first as int]@, band as int, ri) == band_key(sigs[x as int]@, band as int, ri));
                        assert(collide(sigs, bi, ri, first as int, x as int));
                        lemma_linked_collide(sigs, bi, ri, first as int, x as int);
                        lemma_root_linked(sigs, bi, ri, p2, first as int);
                        lemma_root_linked(sigs, bi, ri, p2, x as int);
                        lemma_linked_sym(sigs, bi, ri, first as int, ra as int);
                        lemma_linked_trans(sigs, bi, ri, ra as int, first as int, x as int);
                        lemma_linked_trans(sigs, bi, ri, ra as int, x as int, rb as int);
                        lemma_linked_sym(sigs, bi, ri, ra as int, rb as int);
                    }
                    if ra < rb {
                        parent.set(rb, ra);
                        proof {
                            lemma_union_keeps(sigs, bi, ri, p2, rb as int, ra);
                        }
                    } else {
                        parent.set(ra, rb);
                        proof {
                            lemma_union_keeps(sigs, bi, ri, p2, ra as int, rb);
                        }
                    }
                    proof {
                        lemma_mono_trans(p0, p2, parent@);
                        assert(same(parent@, first as int, x as int));
                    }
                } else {
                    proof {
                        assert(same(parent@, first as int, x as int));
                    }
                }
                proof {
                    let p3 = parent@;
                    assert(mono(p0, p3));
                    lemma_mono_trans(p_band, p0, p3);
                    assert forall|s: int, u: int| 0 <= s < t && 0 <= u < bm[keys@[s]]@.len()
                        implies #[trigger] same(p3, bm[keys@[s]]@[u] as int, bm[keys@[s]]@[0] as int) by {
                        assert(keys@.contains(keys@[s]));
                        assert(bm[keys@[s]]@[u] < n && bm[keys@[s]]@[0] < n);
                        assert(same(p0, bm[keys@[s]]@[u] as int, bm[keys@[s]]@[0] as int));
                    }
                    assert forall|u: int| 0 <= u < q + 1 implies #[trigger] same(p3, group@[u] as int, first as int) by {
                        if u < q {
                            assert(group@[u] < n);
                            assert(same(p0, group@[u] as int, first as int));
                        }
                    }
                }
                q = q + 1;
            }
            t = t + 1;
        }
        proof {
            let pe = parent@;
            assert forall|beta: int| 0 <= beta < band + 1 implies #[trigger] band_done(sigs, ri, pe, beta) by {
                if beta < band {
                    assert(band_done(sigs, ri, p_band, beta));
                    assert forall|i: int, j: int| 0 <= i < sigs.len() && 0 <= j < sigs.len()
                        && #[trigger] band_key(sigs[i]@, beta, ri) == #[trigger] band_key(sigs[j]@, beta, ri) implies same(pe, i, j) by {
                        assert(same(p_band, i, j));
                    }
                } else {
                    assert forall|i: int, j: int| 0 <= i < sigs.len() && 0 <= j < sigs.len()
                        && #[trigger] band_key(sigs[i]@, beta, ri) == #[trigger] band_key(sigs[j]@, beta, ri) implies same(pe, i, j) by {
                        assert(in_bucket(bm, key, i));
                        assert(in_bucket(bm, key, j));
                        let h = key(i);
                        assert(key(j) == h);
                        assert(keys@.contains(h));
                        let s = choose|s: int| 0 <= s < keys@.len() && keys@[s] == h;
                        let ui = choose|ui: int| 0 <= ui < bm[h]@.len() && bm[h]@[ui] == i as usize;
                        let uj = choose|uj: int| 0 <= uj < bm[h]@.len() && bm[h]@[uj] == j as usize;
                        assert(same(pe, bm[keys@[s]]@[ui] as int, bm[keys@[s]]@[0] as int));
                        assert(same(pe, bm[keys@[s]]@[uj] as int, bm[keys@[s]]@[0] as int));
                    }
                }
            }
        }
        band = band + 1;
    }
    // Collect the groups: the indices under each root.
    let ghost pf = parent@;
    let ghost gkey = |k: int| root(pf, k) as u64;
    let mut gm = bucket_map_new();
    i = 0;
    while i < n
        invariant
            n == sigs.len(),
            i <= n,
            pf.len() == n,
            uf_ok(pf),
            parent@.len() == n,
            uf_ok(parent@),
            forall|y: int| 0 <= y < n ==> #[trigger] root(parent@, y) == root(pf, y),
            gkey == (|k: int| root(pf, k) as u64),
            buckets_ok(gm@, gkey, i as int),
        decreases n - i,
    {
        let ghost p0 = parent@;
        let rt = uf_find(&mut parent, i);
        let ghost m0 = gm@;
        bucket_push(&mut gm, rt as u64, i);
        proof {
            assert(rt as u64 == gkey(i as int));
            lemma_buckets_push(m0, gm@, gkey, i as int);
        }
        i = i + 1;
    }
    let keys = bucket_keys(&gm);
    let ghost gmv = gm@;
    let mut out: Vec<Vec<usize>> = Vec::new();
    let mut t: usize = 0;
    while t < keys.len()
        invariant
            gmv == gm@,
            forall|k: u64| #[trigger] keys@.contains(k) <==> gmv.contains_key(k),
            t <= keys@.len(),
            out@.len() == t,
            forall|s: int| 0 <= s < t ==> #[trigger] out@[s]@ == gmv[keys@[s]]@,
        decreases keys@.len() - t,
    {
        proof {
            assert(keys@.contains(keys@[t as int]));
        }
        let g = copy_indices(bucket_get(&gm, keys[t]));
        out.push(g);
        t = t + 1;
    }
    proof {
        assert forall|g: int| 0 <= g < out@.len() implies #[trigger] out@[g]@.len() > 0 && strict_usize(out@[g]@) by {
            assert(keys@.contains(keys@[g]));
        }
        assert forall|g: int, t: int| 0 <= g < out@.len() && 0 <= t < out@[g]@.len()
            implies #[trigger] out@[g]@[t] < signatures@.len() by {
            assert(keys@.contains(keys@[g]));
        }
        assert forall|i: int| 0 <= i < signatures@.len() implies #[trigger] grouped(out@, i) by {
            assert(in_bucket(gmv, gkey, i));
            assert(keys@.contains(gkey(i)));
            let g = choose|g: int| 0 <= g < keys@.len() && keys@[g] == gkey(i);
            assert(out@[g]@.contains(i as usize));
        }
        assert forall|g: int, i: usize| 0 <= g < out@.len() && #[trigger] out@[g]@.contains(i)
            implies i < n && gkey(i as int) == keys@[g] by {
            assert(keys@.contains(keys@[g]));
            let u = choose|u: int| 0 <= u < out@[g]@.len() && out@[g]@[u] == i;
        }
        assert forall|g1: int, g2: int, i: usize| 0 <= g1 < out@.len() && 0 <= g2 < out@.len() && g1 != g2
            && #[trigger] out@[g1]@.contains(i) implies !#[trigger] out@[g2]@.contains(i) by {
            if out@[g2]@.contains(i) {
                assert(keys@[g1] == keys@[g2]);
            }
        }
        assert forall|g: int, i: usize, j: usize| 0 <= g < out@.len() && #[trigger] out@[g]@.contains(i) && j < signatures@.len()
            implies (out@[g]@.contains(j) <==> #[trigger] linked(signatures@, b as int, r as int, i as int, j as int)) by {
            lemma_root(pf, i as int);
            lemma_root(pf, j as int);
            if out@[g]@.contains(j) {
                assert(gkey(j as int) == keys@[g]);
                assert(root(pf, i as int) == root(pf, j as int));
                lemma_root_linked(sigs, bi, ri, pf, i as int);
                lemma_root_linked(sigs, bi, ri, pf, j as int);
                lemma_linked_sym(sigs, bi, ri, j as int, root(pf, j as int));
                lemma_linked_trans(sigs, bi, ri, i as int, root(pf, i as int), j as int);
            }
            if linked(sigs, bi, ri, i as int, j as int) {
                let c = choose|c: Seq<int>| #[trigger] is_chain(sigs, bi, ri, c) && c[0] == i && c.last() == j;
                lemma_chain_same(sigs, bi, ri, pf, c, c.len() - 1);
                assert(in_bucket(gmv, gkey, j as int));
                assert(gkey(j as int) == gkey(i as int));
                assert(gkey(i as int) == keys@[g]);
            }
        }
    }
    out
}

} // verus!
