//! Stable finding fingerprints: FastCDC content-defined chunking (gear hash),
//! a BLAKE3 digest over the chunk digests, and matching a finding against a
//! stored baseline at three levels of strictness.

use vstd::prelude::*;
use vstd::utf8::encode_utf8;
use crate::text::str_eq;

verus! {

/// No cut inside the first `MIN_CHUNK` bytes of a chunk.
pub const MIN_CHUNK: usize = 64;
/// A chunk is cut at the latest after `MAX_CHUNK` bytes.
pub const MAX_CHUNK: usize = 4096;
/// Cut where the low 9 bits of the gear hash are zero (~512-byte chunks).
pub const CUT_MASK: u64 = 511;

/// The running state behind gear entry `k`.
pub open spec fn gear_z(k: nat) -> u64
    decreases k,
{
    let prev: u64 = if k == 0 { 0xDEADBEEFCAFEBABEu64 } else { gear_z((k - 1) as nat) };
    prev.wrapping_add(0x9E3779B97F4A7C15u64)
}

/// Gear table entry `k`.
pub open spec fn gear(k: nat) -> u64 {
    let z = gear_z(k);
    let a = (z ^ (z >> 30u64)).wrapping_mul(0xBF58476D1CE4E5B9u64);
    let a = (a ^ (a >> 27u64)).wrapping_mul(0x94D049BB133111EBu64);
    a ^ (a >> 31u64)
}

/// The 256-entry gear table.
fn gear_table() -> (t: Vec<u64>)
    ensures
        t@.len() == 256,
        forall|k: int| 0 <= k < 256 ==> #[trigger] t@[k] == gear(k as nat),
{
    let mut t: Vec<u64> = Vec::new();
    let mut z: u64 = 0xDEADBEEFCAFEBABEu64;
    let mut k: usize = 0;
    while k < 256
        invariant
            k <= 256,
            t@.len() == k,
            k > 0 ==> z == gear_z((k - 1) as nat),
            k == 0 ==> z == 0xDEADBEEFCAFEBABEu64,
            forall|c: int| 0 <= c < k ==> #[trigger] t@[c] == gear(c as nat),
        decreases 256 - k,
    {
        z = z.wrapping_add(0x9E3779B97F4A7C15u64);
        let mut a = (z ^ (z >> 30u64)).wrapping_mul(0xBF58476D1CE4E5B9u64);
        a = (a ^ (a >> 27u64)).wrapping_mul(0x94D049BB133111EBu64);
        t.push(a ^ (a >> 31u64));
        k = k + 1;
    }
    t
}

/// Where the chunk starting at `start` is cut, scanning from offset `i`
/// with gear hash `fp`: its length.
pub open spec fn cut_from(data: Seq<u8>, start: int, i: int, fp: u64) -> int
    decreases data.len() - start - i,
{
    let remaining = data.len() - start;
    if i >= remaining || i < 0 {
        remaining
    } else {
        let fp2 = (fp << 1u64).wrapping_add(gear(data[start + i] as nat));
        if i >= MAX_CHUNK {
            i
        } else if fp2 & CUT_MASK == 0 {
            i + 1
        } else {
            cut_from(data, start, i + 1, fp2)
        }
    }
}

/// The length of the chunk that starts at `start`.
pub open spec fn cut_len(data: Seq<u8>, start: int) -> int {
    let remaining = data.len() - start;
    if remaining <= MIN_CHUNK {
        remaining
    } else {
        cut_from(data, start, MIN_CHUNK as int, 0)
    }
}

proof fn lemma_cut_from_bounds(data: Seq<u8>, start: int, i: int, fp: u64)
    requires
        0 <= start,
        MIN_CHUNK <= i <= MAX_CHUNK,
        data.len() - start > MIN_CHUNK,
    ensures
        MIN_CHUNK <= cut_from(data, start, i, fp) <= data.len() - start,
        cut_from(data, start, i, fp) <= MAX_CHUNK,
    decreases data.len() - start - i,
{
    let remaining = data.len() - start;
    if i < remaining {
        let fp2 = (fp << 1u64).wrapping_add(gear(data[start + i] as nat));
        if i < MAX_CHUNK && fp2 & CUT_MASK != 0 {
            lemma_cut_from_bounds(data, start, i + 1, fp2);
        }
    }
}

proof fn lemma_cut_len_bounds(data: Seq<u8>, start: int)
    requires
        0 <= start < data.len(),
    ensures
        1 <= cut_len(data, start) <= data.len() - start,
{
    if data.len() - start > MIN_CHUNK {
        lemma_cut_from_bounds(data, start, MIN_CHUNK as int, 0);
    }
}

/// The chunks from `start` to the end: `(offset, length)` pairs.
pub open spec fn cdc_chunks(data: Seq<u8>, start: int) -> Seq<(usize, usize)>
    decreases data.len() - start,
{
    if start < 0 || start >= data.len() {
        Seq::empty()
    } else {
        let len = cut_len(data, start);
        if len < 1 || len > data.len() - start {
            Seq::empty()
        } else {
            seq![(start as usize, len as usize)] + cdc_chunks(data, start + len)
        }
    }
}

/// `chunks` tile `from..to`: consecutive, non-empty, in order.
pub open spec fn tiles(chunks: Seq<(usize, usize)>, from: int, to: int) -> bool
    decreases chunks.len(),
{
    if chunks.len() == 0 {
        from == to
    } else {
        chunks[0].0 == from && chunks[0].1 > 0 && tiles(chunks.drop_first(), from + chunks[0].1, to)
    }
}

proof fn lemma_chunks_tile(data: Seq<u8>, start: int)
    requires
        0 <= start <= data.len(),
        data.len() <= usize::MAX,
    ensures
        tiles(cdc_chunks(data, start), start, data.len() as int),
        forall|k: int| 0 <= k < cdc_chunks(data, start).len() ==> #[trigger] cdc_chunks(data, start)[k].1 <= MAX_CHUNK,
    decreases data.len() - start,
{
    if start < data.len() {
        lemma_cut_len_bounds(data, start);
        let len = cut_len(data, start);
        if data.len() - start > MIN_CHUNK {
            lemma_cut_from_bounds(data, start, MIN_CHUNK as int, 0);
        }
        lemma_chunks_tile(data, start + len);
        let c = cdc_chunks(data, start);
        assert(c.drop_first() =~= cdc_chunks(data, start + len));
        assert forall|k: int| 0 <= k < c.len() implies #[trigger] c[k].1 <= MAX_CHUNK by {
            if k > 0 {
                assert(c[k] == cdc_chunks(data, start + len)[k - 1]);
            }
        }
    }
}

proof fn lemma_cut_from_long(data: Seq<u8>, start: int, i: int, fp: u64)
    requires
        0 <= start,
        MIN_CHUNK <= i <= MAX_CHUNK,
    ensures
        cut_from(data, start, i, fp) == data.len() - start || cut_from(data, start, i, fp) > 64,
    decreases data.len() - start - i,
{
    let remaining = data.len() - start;
    if i < remaining {
        let fp2 = (fp << 1u64).wrapping_add(gear(data[start + i] as nat));
        if i < MAX_CHUNK && fp2 & CUT_MASK != 0 {
            lemma_cut_from_long(data, start, i + 1, fp2);
        }
    }
}

/// Chunk sizes: no chunk is longer than 4096 bytes, and every chunk but the
/// last is longer than 64 bytes (no cut falls in a chunk's first 64 bytes).
pub proof fn lemma_chunk_sizes(data: Seq<u8>, start: int)
    requires
        0 <= start <= data.len() <= usize::MAX,
    ensures
        forall|k: int| 0 <= k < cdc_chunks(data, start).len() ==> #[trigger] cdc_chunks(data, start)[k].1 <= 4096,
        forall|k: int| 0 <= k < cdc_chunks(data, start).len() - 1 ==> #[trigger] cdc_chunks(data, start)[k].1 > 64,
    decreases data.len() - start,
{
    lemma_chunks_tile(data, start);
    if start < data.len() {
        lemma_cut_len_bounds(data, start);
        let len = cut_len(data, start);
        if data.len() - start > MIN_CHUNK {
            lemma_cut_from_long(data, start, MIN_CHUNK as int, 0);
        }
        lemma_chunk_sizes(data, start + len);
        let c = cdc_chunks(data, start);
        let r = cdc_chunks(data, start + len);
        assert(c == seq![(start as usize, len as usize)] + r);
        if len == data.len() - start {
            assert(r.len() == 0);
        }
        assert forall|k: int| 0 <= k < c.len() - 1 implies #[trigger] c[k].1 > 64 by {
            if k > 0 {
                assert(c[k] == r[k - 1]);
            }
        }
    }
}

/// FastCDC content-defined chunking (gear hash): `(offset, length)` chunks
/// that tile all of `data`, each at most `MAX_CHUNK` bytes. A cut is placed
/// where the gear hash, started `MIN_CHUNK` bytes into the chunk, has its
/// low bits clear, so boundaries follow content, not offsets.
pub fn fastcdc(data: &[u8]) -> (chunks: Vec<(usize, usize)>)
    ensures
        chunks@ == cdc_chunks(data@, 0),
        tiles(chunks@, 0, data@.len() as int),
        forall|k: int| 0 <= k < chunks@.len() ==> #[trigger] chunks@[k].1 <= MAX_CHUNK,
{
    let gear_t = gear_table();
    let mut chunks: Vec<(usize, usize)> = Vec::new();
    let n = data.len();
    let mut start: usize = 0;
    proof {
        assert(chunks@ + cdc_chunks(data@, 0) =~= cdc_chunks(data@, 0));
    }
    while start < n
        invariant
            n == data@.len(),
            start <= n,
            gear_t@.len() == 256,
            forall|k: int| 0 <= k < 256 ==> #[trigger] gear_t@[k] == gear(k as nat),
            chunks@ + cdc_chunks(data@, start as int) == cdc_chunks(data@, 0),
        decreases n - start,
    {
        let remaining = n - start;
        let mut len: usize = remaining;
        if remaining > MIN_CHUNK {
            let mut fp: u64 = 0;
            let mut i: usize = MIN_CHUNK;
            while i < remaining
                invariant_except_break
                    cut_from(data@, start as int, i as int, fp) == cut_from(data@, start as int, MIN_CHUNK as int, 0),
                    len == remaining,
                    MIN_CHUNK <= i <= MAX_CHUNK,
                invariant
                    n == data@.len(),
                    start < n,
                    remaining == n - start,
                    remaining > MIN_CHUNK,
                    i <= remaining,
                    gear_t@.len() == 256,
                    forall|k: int| 0 <= k < 256 ==> #[trigger] gear_t@[k] == gear(k as nat),
                ensures
                    len == cut_from(data@, start as int, MIN_CHUNK as int, 0),
                decreases remaining - i,
            {
                let b = data[start + i];
                fp = (fp << 1u64).wrapping_add(gear_t[b as usize]);
                if i >= MAX_CHUNK {
                    len = i;
                    break;
                }
                if fp & CUT_MASK == 0 {
                    len = i + 1;
                    break;
                }
                i = i + 1;
            }
        }
        proof {
            lemma_cut_len_bounds(data@, start as int);
            assert(len == cut_len(data@, start as int));
            let c = cdc_chunks(data@, start as int);
            assert(c =~= seq![(start, len)] + cdc_chunks(data@, start + len));
        }
        chunks.push((start, len));
        proof {
            assert(chunks@ + cdc_chunks(data@, start + len) =~= cdc_chunks(data@, 0));
        }
        start = start + len;
    }
    proof {
        assert(chunks@ =~= cdc_chunks(data@, 0));
        lemma_chunks_tile(data@, 0);
    }
    chunks
}

/// The BLAKE3 digest of a byte string.
pub uninterp spec fn blake3_digest(input: Seq<u8>) -> Seq<u8>;

/// `blake3::hash`: the 32-byte BLAKE3 digest of `data`.
#[verifier::external_body]
fn blake3_hash(data: &[u8]) -> (res: [u8; 32])
    ensures
        res@ == blake3_digest(data@),
{
    *blake3::hash(data).as_bytes()
}

/// The bytes hashed for a fingerprint: `class`, a zero byte, the rubric
/// version, a zero byte, then the digests of the chunks in order.
pub open spec fn fingerprint_input(class: Seq<char>, rubric: Seq<char>, chunk_digests: Seq<Seq<u8>>) -> Seq<u8> {
    encode_utf8(class) + seq![0u8] + encode_utf8(rubric) + seq![0u8] + chunk_digests.flatten()
}

/// The digests of the content-defined chunks of `span`.
pub open spec fn chunk_digests(span: Seq<u8>) -> Seq<Seq<u8>> {
    let c = cdc_chunks(span, 0);
    Seq::new(c.len(), |k: int| blake3_digest(span.subrange(c[k].0 as int, c[k].0 + c[k].1)))
}

/// Fingerprint a finding: the first 16 bytes of BLAKE3 over
/// `class || 0 || rubric_version || 0 || <chunk digests>`. Content-defined
/// chunking keeps it stable against edits above the finding.
pub fn fingerprint(class: &str, rubric_version: &str, span_bytes: &[u8]) -> (fp: [u8; 16])
    ensures
        fp@ == blake3_digest(fingerprint_input(class@, rubric_version@, chunk_digests(span_bytes@))).take(16),
{
    let chunks = fastcdc(span_bytes);
    let sl = span_bytes.len();
    let mut buf: Vec<u8> = Vec::new();
    buf.extend_from_slice(class.as_bytes());
    buf.push(0u8);
    buf.extend_from_slice(rubric_version.as_bytes());
    buf.push(0u8);
    let ghost head = buf@;
    let ghost digests = chunk_digests(span_bytes@);
    proof {
        lemma_chunks_tile(span_bytes@, 0);
    }
    let mut k: usize = 0;
    while k < chunks.len()
        invariant
            chunks@ == cdc_chunks(span_bytes@, 0),
            sl == span_bytes@.len(),
            digests == chunk_digests(span_bytes@),
            tiles(chunks@, 0, span_bytes@.len() as int),
            k <= chunks@.len(),
            buf@ == head + digests.take(k as int).flatten(),
        decreases chunks@.len() - k,
    {
        let (off, len) = chunks[k];
        proof {
            lemma_tile_in_range(chunks@, 0, span_bytes@.len() as int, k as int);
        }
        let piece = slice_range(span_bytes, off, off + len);
        let h = blake3_hash(piece);
        let ghost before = buf@;
        buf.extend_from_slice(&h);
        proof {
            assert(digests.take(k + 1).drop_last() =~= digests.take(k as int));
            digests.take(k as int).lemma_flatten_push(digests[k as int]);
            assert(digests.take(k as int).push(digests[k as int]) =~= digests.take(k + 1));
            assert(h@ == digests[k as int]);
        }
        k = k + 1;
    }
    proof {
        assert(digests.take(chunks@.len() as int) =~= digests);
        assert(buf@ =~= fingerprint_input(class@, rubric_version@, digests));
    }
    let full = blake3_hash(buf.as_slice());
    let mut out: [u8; 16] = [0u8; 16];
    let mut i: usize = 0;
    while i < 16
        invariant
            i <= 16,
            out@.len() == 16,
            full@ == blake3_digest(buf@),
            forall|c: int| 0 <= c < i ==> #[trigger] out@[c] == full@[c],
        decreases 16 - i,
    {
        out.set(i, full[i]);
        i = i + 1;
    }
    proof {
        assert(out@ =~= full@.take(16));
    }
    out
}

proof fn lemma_tile_in_range(chunks: Seq<(usize, usize)>, from: int, to: int, k: int)
    requires
        tiles(chunks, from, to),
        0 <= k < chunks.len(),
    ensures
        from <= chunks[k].0,
        chunks[k].0 + chunks[k].1 <= to,
    decreases k,
{
    if k > 0 {
        lemma_tile_in_range(chunks.drop_first(), from + chunks[0].1, to, k - 1);
    } else {
        lemma_tile_end(chunks.drop_first(), from + chunks[0].1, to);
    }
}

proof fn lemma_tile_end(chunks: Seq<(usize, usize)>, from: int, to: int)
    requires
        tiles(chunks, from, to),
    ensures
        from <= to,
    decreases chunks.len(),
{
    if chunks.len() > 0 {
        lemma_tile_end(chunks.drop_first(), from + chunks[0].1, to);
    }
}

/// The bytes `lo..hi` of a slice.
fn slice_range(s: &[u8], lo: usize, hi: usize) -> (res: &[u8])
    requires
        lo <= hi <= s@.len(),
    ensures
        res@ == s@.subrange(lo as int, hi as int),
{
    vstd::slice::slice_subrange(s, lo, hi)
}

/// A stored finding.
#[derive(Debug)]
pub struct BaselineEntry {
    pub class: String,
    pub path: String,
    pub span: (u32, u32),
    pub symbol: String,
    pub fp: [u8; 16],
}

impl Clone for BaselineEntry {
    fn clone(&self) -> (res: Self)
        ensures
            res@ == self@,
    {
        BaselineEntry {
            class: self.class.clone(),
            path: self.path.clone(),
            span: (self.span.0, self.span.1),
            symbol: self.symbol.clone(),
            fp: self.fp,
        }
    }
}

impl View for BaselineEntry {
    type V = (Seq<char>, Seq<char>, (u32, u32), Seq<char>, Seq<u8>);

    open spec fn view(&self) -> Self::V {
        (self.class@, self.path@, self.span, self.symbol@, self.fp@)
    }
}

/// Level 1: same class, path and span.
pub open spec fn exact_match(e: BaselineEntry, class: Seq<char>, path: Seq<char>, span: (u32, u32)) -> bool {
    e.class@ == class && e.path@ == path && e.span == span
}

/// Level 2: same class and span (the file moved).
pub open spec fn span_match(e: BaselineEntry, class: Seq<char>, span: (u32, u32)) -> bool {
    e.class@ == class && e.span == span
}

/// Level 3: same class and enclosing symbol (edited within the function).
pub open spec fn symbol_match(e: BaselineEntry, class: Seq<char>, symbol: Seq<char>) -> bool {
    e.class@ == class && e.symbol@ == symbol
}

/// Match a finding against the baseline, strongest level first: the first
/// entry matching exactly (level 1), else the first matching class and span
/// (level 2), else the first matching class and symbol (level 3).
pub fn match_level(
    baseline: &[BaselineEntry],
    class: &str,
    path: &str,
    span: (u32, u32),
    symbol: &str,
) -> (res: Option<(usize, u8)>)
    ensures
        match res {
            Some((i, 1)) => i < baseline@.len() && exact_match(baseline@[i as int], class@, path@, span)
                && forall|j: int| 0 <= j < i ==> !exact_match(#[trigger] baseline@[j], class@, path@, span),
            Some((i, 2)) => i < baseline@.len() && span_match(baseline@[i as int], class@, span)
                && (forall|j: int| 0 <= j < baseline@.len() ==> !exact_match(#[trigger] baseline@[j], class@, path@, span))
                && forall|j: int| 0 <= j < i ==> !span_match(#[trigger] baseline@[j], class@, span),
            Some((i, 3)) => i < baseline@.len() && symbol_match(baseline@[i as int], class@, symbol@)
                && (forall|j: int| 0 <= j < baseline@.len() ==> !span_match(#[trigger] baseline@[j], class@, span))
                && forall|j: int| 0 <= j < i ==> !symbol_match(#[trigger] baseline@[j], class@, symbol@),
            Some(_) => false,
            None => forall|j: int| 0 <= j < baseline@.len() ==> !span_match(#[trigger] baseline@[j], class@, span)
                && !symbol_match(baseline@[j], class@, symbol@),
        },
{
    let mut i: usize = 0;
    while i < baseline.len()
        invariant
            i <= baseline@.len(),
            forall|j: int| 0 <= j < i ==> !exact_match(#[trigger] baseline@[j], class@, path@, span),
        decreases baseline@.len() - i,
    {
        let e = &baseline[i];
        if str_eq(e.class.as_str(), class) && str_eq(e.path.as_str(), path) && e.span.0 == span.0 && e.span.1 == span.1 {
            return Some((i, 1));
        }
        i = i + 1;
    }
    let mut i: usize = 0;
    while i < baseline.len()
        invariant
            i <= baseline@.len(),
            forall|j: int| 0 <= j < baseline@.len() ==> !exact_match(#[trigger] baseline@[j], class@, path@, span),
            forall|j: int| 0 <= j < i ==> !span_match(#[trigger] baseline@[j], class@, span),
        decreases baseline@.len() - i,
    {
        let e = &baseline[i];
        if str_eq(e.class.as_str(), class) && e.span.0 == span.0 && e.span.1 == span.1 {
            return Some((i, 2));
        }
        i = i + 1;
    }
    let mut i: usize = 0;
    while i < baseline.len()
        invariant
            i <= baseline@.len(),
            forall|j: int| 0 <= j < baseline@.len() ==> !span_match(#[trigger] baseline@[j], class@, span),
            forall|j: int| 0 <= j < i ==> !symbol_match(#[trigger] baseline@[j], class@, symbol@),
        decreases baseline@.len() - i,
    {
        let e = &baseline[i];
        if str_eq(e.class.as_str(), class) && str_eq(e.symbol.as_str(), symbol) {
            return Some((i, 3));
        }
        i = i + 1;
    }
    None
}

// ---------------------------------------------------------------------------
// Boundaries follow content: what comes before a cut does not move the cuts
// after it.

/// The bytes of `a` from `sa` on are those of `b` from `sb` on.
pub open spec fn same_tail(a: Seq<u8>, sa: int, b: Seq<u8>, sb: int) -> bool {
    &&& 0 <= sa <= a.len()
    &&& 0 <= sb <= b.len()
    &&& a.len() - sa == b.len() - sb
    &&& forall|j: int| 0 <= j < a.len() - sa ==> #[trigger] a[sa + j] == b[sb + j]
}

proof fn lemma_cut_from_local(a: Seq<u8>, sa: int, b: Seq<u8>, sb: int, i: int, fp: u64)
    requires
        same_tail(a, sa, b, sb),
    ensures
        cut_from(a, sa, i, fp) == cut_from(b, sb, i, fp),
    decreases a.len() - sa - i,
{
    let remaining = a.len() - sa;
    if 0 <= i < remaining {
        assert(a[sa + i] == b[sb + i]);
        let fp2 = (fp << 1u64).wrapping_add(gear(a[sa + i] as nat));
        if i < MAX_CHUNK && fp2 & CUT_MASK != 0 {
            lemma_cut_from_local(a, sa, b, sb, i + 1, fp2);
        }
    }
}

/// The chunks from a start depend only on the bytes from there on.
#[verifier::spinoff_prover]
#[verifier::rlimit(30)]
proof fn lemma_chunks_local(a: Seq<u8>, sa: int, b: Seq<u8>, sb: int)
    requires
        same_tail(a, sa, b, sb),
        a.len() <= usize::MAX,
        b.len() <= usize::MAX,
    ensures
        cdc_chunks(a, sa).len() == cdc_chunks(b, sb).len(),
        forall|k: int| 0 <= k < cdc_chunks(a, sa).len() ==> #[trigger] cdc_chunks(a, sa)[k].1 == cdc_chunks(b, sb)[k].1
            && cdc_chunks(a, sa)[k].0 - sa == cdc_chunks(b, sb)[k].0 - sb,
    decreases a.len() - sa,
{
    if sa < a.len() {
        if a.len() - sa > MIN_CHUNK {
            lemma_cut_from_local(a, sa, b, sb, MIN_CHUNK as int, 0);
        }
        assert(cut_len(a, sa) == cut_len(b, sb));
        lemma_cut_len_bounds(a, sa);
        lemma_cut_len_bounds(b, sb);
        let len = cut_len(a, sa);
        assert(same_tail(a, sa + len, b, sb + len)) by {
            assert forall|j: int| 0 <= j < a.len() - (sa + len) implies #[trigger] a[sa + len + j] == b[sb + len + j] by {
                assert(a[sa + (len + j)] == b[sb + (len + j)]);
            }
        }
        lemma_chunks_local(a, sa + len, b, sb + len);
        let ca = cdc_chunks(a, sa);
        let cb = cdc_chunks(b, sb);
        assert(ca.drop_first() =~= cdc_chunks(a, sa + len));
        assert(cb.drop_first() =~= cdc_chunks(b, sb + len));
        assert forall|k: int| 0 <= k < ca.len() implies #[trigger] ca[k].1 == cb[k].1 && ca[k].0 - sa == cb[k].0 - sb by {
            if k > 0 {
                assert(ca[k] == cdc_chunks(a, sa + len)[k - 1]);
                assert(cb[k] == cdc_chunks(b, sb + len)[k - 1]);
            }
        }
    }
}

/// From chunk `k` on, the chunks are those that start at its offset.
proof fn lemma_chunks_skip(data: Seq<u8>, start: int, k: int)
    requires
        0 <= start,
        data.len() <= usize::MAX,
        0 <= k < cdc_chunks(data, start).len(),
    ensures
        cdc_chunks(data, start).skip(k) == cdc_chunks(data, cdc_chunks(data, start)[k].0 as int),
    decreases k,
{
    let c = cdc_chunks(data, start);
    lemma_cut_len_bounds(data, start);
    let len = cut_len(data, start);
    assert(c.drop_first() =~= cdc_chunks(data, start + len));
    if k == 0 {
        assert(c.skip(0) =~= c);
        assert(c[0].0 as int == start);
    } else {
        lemma_chunks_skip(data, start + len, k - 1);
        assert(c.skip(k) =~= cdc_chunks(data, start + len).skip(k - 1));
        assert(c[k] == cdc_chunks(data, start + len)[k - 1]);
    }
}

/// Edits before a cut move no cut after it: when `a` and `b` are chunked
/// and a chunk of each starts where the two agree to the end, the chunks
/// from there on have the same lengths, at the same distances from those
/// starts.
pub proof fn lemma_cdc_resync(a: Seq<u8>, b: Seq<u8>, ka: int, kb: int)
    requires
        a.len() <= usize::MAX,
        b.len() <= usize::MAX,
        0 <= ka < cdc_chunks(a, 0).len(),
        0 <= kb < cdc_chunks(b, 0).len(),
        same_tail(a, cdc_chunks(a, 0)[ka].0 as int, b, cdc_chunks(b, 0)[kb].0 as int),
    ensures
        cdc_chunks(a, 0).len() - ka == cdc_chunks(b, 0).len() - kb,
        forall|j: int| 0 <= j < cdc_chunks(a, 0).len() - ka ==>
            #[trigger] cdc_chunks(a, 0)[ka + j].1 == cdc_chunks(b, 0)[kb + j].1
            && cdc_chunks(a, 0)[ka + j].0 - cdc_chunks(a, 0)[ka].0 == cdc_chunks(b, 0)[kb + j].0 - cdc_chunks(b, 0)[kb].0,
{
    let ca = cdc_chunks(a, 0);
    let cb = cdc_chunks(b, 0);
    let sa = ca[ka].0 as int;
    let sb = cb[kb].0 as int;
    lemma_chunks_skip(a, 0, ka);
    lemma_chunks_skip(b, 0, kb);
    lemma_chunks_local(a, sa, b, sb);
    assert forall|j: int| 0 <= j < ca.len() - ka implies
        #[trigger] ca[ka + j].1 == cb[kb + j].1 && ca[ka + j].0 - ca[ka].0 == cb[kb + j].0 - cb[kb].0 by {
        assert(ca[ka + j] == ca.skip(ka)[j]);
        assert(cb[kb + j] == cb.skip(kb)[j]);
        assert(ca.skip(ka)[j] == cdc_chunks(a, sa)[j]);
        assert(cb.skip(kb)[j] == cdc_chunks(b, sb)[j]);
    }
}

} // verus!
