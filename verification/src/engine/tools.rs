//! The read-only tools a model may call during a scan: read a span, look a
//! symbol up, list its callers, ask whether one symbol reaches another (with
//! a witness path), and grep the sources line by line. Names arrive
//! interned; results name symbols and files by id and position.

use vstd::prelude::*;
use lasso::Spur;
use std::path::PathBuf;
use vstd::utf8::{valid_utf8, encode_utf8};
use crate::index::graph::{CsrGraph, csr_list, reaches};
use crate::index::scc::Condensation;
use crate::index::labels::ReachLabels;
use crate::index::resolve::{NameIndex, definition, lemma_definition_in_range};
use crate::index::source::{SourceFile, span_text, str_from_utf8, lemma_table_shape};
use crate::index::span::line_table_of;
use crate::index::symbol::Symbol;
use crate::index::witness::{witness_chain, symbol_reaches, walk_from_to};
use crate::text::str_eq;

verus! {

/// A tool call, its names interned: a symbol name comes as the key of the
/// whole name and the key of its last `::` segment.
pub enum ToolRequest {
    ReadSpan { path: String, start: u32, end: u32 },
    DefinitionOf { qual: Spur, last: Spur },
    CallersOf { qual: Spur, last: Spur },
    Reaches { from_qual: Spur, from_last: Spur, to_qual: Spur, to_last: Spur },
    Grep { pattern: String },
    Unknown,
}

/// A tool's answer.
pub enum ToolResult {
    /// The text of the span read.
    Text(String),
    /// No source file has that path.
    FileNotFound,
    /// The symbol a name defines.
    Definition(u32),
    /// The direct callers of the symbol named.
    Callers(Vec<u32>),
    /// Whether the first symbol reaches the second, and a witness path
    /// (empty where it does not).
    Reach { reaches: bool, witness: Vec<u32> },
    /// `(file position, 1-based line)` of every matching line.
    Hits(Vec<(u32, usize)>),
    /// A name that defines no symbol.
    NoSymbol,
    /// A tool that does not exist.
    UnknownTool,
}

/// Where line `k` of a file ends, as `str::lines` cuts it: before a final
/// `\n`, and before a `\r` that precedes that `\n`.
pub open spec fn line_end(b: Seq<u8>, st: Seq<u32>, k: int) -> int {
    let lo = st[k] as int;
    let hi0 = st[k + 1] as int;
    let hi1 = if hi0 > lo && b[hi0 - 1] == 10u8 { hi0 - 1 } else { hi0 };
    if hi1 > lo && hi1 < hi0 && b[hi1 - 1] == 13u8 { hi1 - 1 } else { hi1 }
}

/// The number of lines `str::lines` yields: one per table row, but none for
/// an empty last row.
pub open spec fn line_count(b: Seq<u8>, st: Seq<u32>) -> int {
    let m = st.len() as int;
    if st[m - 2] < b.len() { m - 1 } else { m - 2 }
}

/// `pat` occurs in `hay`.
pub open spec fn occurs(hay: Seq<u8>, pat: Seq<u8>) -> bool {
    exists|i: int| 0 <= i <= hay.len() - pat.len() && #[trigger] hay.subrange(i, i + pat.len()) == pat
}

/// The matches in the first `upto` lines of the file at position `k`.
pub open spec fn file_hits(b: Seq<u8>, st: Seq<u32>, pat: Seq<u8>, k: u32, upto: int) -> Seq<(u32, usize)>
    decreases upto,
{
    if upto <= 0 {
        Seq::empty()
    } else {
        file_hits(b, st, pat, k, upto - 1) + (if occurs(b.subrange(st[upto - 1] as int, line_end(b, st, upto - 1)), pat) {
            seq![(k, upto as usize)]
        } else {
            Seq::empty()
        })
    }
}

/// The matches in the first `upto` files, skipping files that are not
/// UTF-8.
pub open spec fn grep_hits(files: Seq<SourceFile>, pat: Seq<u8>, upto: int) -> Seq<(u32, usize)>
    decreases upto,
{
    if upto <= 0 {
        Seq::empty()
    } else {
        let f = files[upto - 1];
        let b = f.bytes@;
        let st = f.line_table.line_starts@;
        grep_hits(files, pat, upto - 1) + (if valid_utf8(b) {
            file_hits(b, st, pat, (upto - 1) as u32, line_count(b, st))
        } else {
            Seq::empty()
        })
    }
}

/// `Path::ends_with`: whether the path's last components are those of
/// `s`. Nothing is claimed of the result: the path's components are not
/// modelled.
#[verifier::external_body]
fn path_ends_with(p: &PathBuf, s: &str) -> bool {
    p.ends_with(s)
}

/// Whether `pat` occurs in `b[lo..hi]`.
fn occurs_in(b: &Vec<u8>, lo: usize, hi: usize, pat: &[u8]) -> (res: bool)
    requires
        lo <= hi <= b@.len(),
    ensures
        res == occurs(b@.subrange(lo as int, hi as int), pat@),
{
    let ghost hay = b@.subrange(lo as int, hi as int);
    let m = pat.len();
    if m > hi - lo {
        proof {
            assert forall|i: int| 0 <= i <= hay.len() - pat@.len() implies #[trigger] hay.subrange(i, i + pat@.len()) != pat@ by {
            }
        }
        return false;
    }
    let mut i: usize = lo;
    while i <= hi - m
        invariant
            lo <= i,
            m <= hi - lo,
            hi <= b@.len(),
            m == pat@.len(),
            hay == b@.subrange(lo as int, hi as int),
            forall|x: int| 0 <= x < i - lo ==> #[trigger] hay.subrange(x, x + m) != pat@,
        decreases hi - i,
    {
        let mut j: usize = 0;
        while j < m && b[i + j] == pat[j]
            invariant
                j <= m,
                m == pat@.len(),
                i + m <= hi,
                hi <= b@.len(),
                forall|y: int| 0 <= y < j ==> b@[i + y] == pat@[y],
            decreases m - j,
        {
            j = j + 1;
        }
        proof {
            let w = hay.subrange(i - lo, i - lo + m);
            if j == m {
                assert(w =~= pat@);
            } else {
                assert(w[j as int] == b@[i + j]);
            }
        }
        if j == m {
            proof {
                assert(hay.subrange(i - lo, i - lo + m) == pat@);
            }
            return true;
        }
        i = i + 1;
    }
    proof {
        assert forall|x: int| 0 <= x <= hay.len() - pat@.len() implies #[trigger] hay.subrange(x, x + pat@.len()) != pat@ by {
            assert(x < i - lo);
        }
    }
    false
}

/// The matches of `pat` in the lines of one file.
fn grep_file(f: &SourceFile, k: u32, pat: &[u8]) -> (res: Vec<(u32, usize)>)
    requires
        f.wf(),
    ensures
        res@ == file_hits(f.bytes@, f.line_table.line_starts@, pat@, k, line_count(f.bytes@, f.line_table.line_starts@)),
{
    let ghost b = f.bytes@;
    let st = &f.line_table.line_starts;
    proof {
        lemma_table_shape(b);
    }
    let m = st.len();
    let count: usize = if (st[m - 2] as usize) < f.bytes.len() { m - 1 } else { m - 2 };
    let mut out: Vec<(u32, usize)> = Vec::new();
    let mut i: usize = 0;
    while i < count
        invariant
            f.wf(),
            st@ == line_table_of(b),
            b == f.bytes@,
            m == st@.len(),
            m >= 2,
            count == line_count(b, st@),
            count <= m - 1,
            i <= count,
            forall|x: int| 0 <= x < m ==> #[trigger] st@[x] <= b.len(),
            forall|x: int, y: int| 0 <= x <= y < m ==> #[trigger] st@[x] <= #[trigger] st@[y],
            out@ == file_hits(b, st@, pat@, k, i as int),
        decreases count - i,
    {
        let lo = st[i] as usize;
        let hi0 = st[i + 1] as usize;
        assert(st@[i as int] <= st@[i + 1]);
        let hi1 = if hi0 > lo && f.bytes[hi0 - 1] == 10u8 { hi0 - 1 } else { hi0 };
        let hi = if hi1 > lo && hi1 < hi0 && f.bytes[hi1 - 1] == 13u8 { hi1 - 1 } else { hi1 };
        assert(hi == line_end(b, st@, i as int));
        if occurs_in(&f.bytes, lo, hi, pat) {
            out.push((k, i + 1));
        }
        i = i + 1;
    }
    out
}

/// Every line, in every UTF-8 source file, that contains `pat`.
pub fn grep(files: &[SourceFile], pat: &str) -> (res: Vec<(u32, usize)>)
    requires
        files@.len() <= u32::MAX,
        forall|k: int| 0 <= k < files@.len() ==> #[trigger] files@[k].wf(),
    ensures
        res@ == grep_hits(files@, encode_utf8(pat@), files@.len() as int),
{
    let p = pat.as_bytes();
    let mut out: Vec<(u32, usize)> = Vec::new();
    let mut k: usize = 0;
    while k < files.len()
        invariant
            k <= files@.len(),
            files@.len() <= u32::MAX,
            forall|x: int| 0 <= x < files@.len() ==> #[trigger] files@[x].wf(),
            p@ == encode_utf8(pat@),
            out@ == grep_hits(files@, p@, k as int),
        decreases files@.len() - k,
    {
        let f = &files[k];
        if str_from_utf8(f.bytes.as_slice()).is_some() {
            let mut hits = grep_file(f, k as u32, p);
            out.append(&mut hits);
        }
        k = k + 1;
    }
    out
}

/// The first source file whose relative path is `path`, or whose full path
/// ends with it.
fn find_file(files: &[SourceFile], path: &str) -> (res: Option<usize>)
    ensures
        res matches Some(k) ==> k < files@.len(),
        (exists|k: int| 0 <= k < files@.len() && #[trigger] files@[k].rel_path@ == path@) ==> res is Some,
{
    let mut k: usize = 0;
    while k < files.len()
        invariant
            k <= files@.len(),
            forall|x: int| 0 <= x < k ==> #[trigger] files@[x].rel_path@ != path@,
        decreases files@.len() - k,
    {
        let f = &files[k];
        if str_eq(f.rel_path.as_str(), path) || path_ends_with(&f.path, path) {
            return Some(k);
        }
        k = k + 1;
    }
    None
}

/// Everything a tool reads: the sources, the name index over the symbol
/// table, the call graph, its condensation and the reachability labels.
pub open spec fn tool_world(files: Seq<SourceFile>, names: NameIndex, symbols: Seq<Symbol>, graph: CsrGraph,
    cond: Condensation, labels: ReachLabels) -> bool {
    &&& forall|k: int| 0 <= k < files.len() ==> #[trigger] files[k].wf()
    &&& files.len() <= u32::MAX
    &&& names.wf()
    &&& names.names().len() == symbols.len()
    &&& graph.wf()
    &&& graph.spec_n() == symbols.len()
    &&& cond.is_condensation_of(graph)
    &&& labels.labels_for(cond.dag)
}

/// Run one tool call.
pub fn run_tool(files: &[SourceFile], names: &NameIndex, symbols: &[Symbol], graph: &CsrGraph, cond: &Condensation,
    labels: &ReachLabels, req: &ToolRequest) -> (res: ToolResult)
    requires
        tool_world(files@, *names, symbols@, *graph, *cond, *labels),
    ensures
        match *req {
            ToolRequest::ReadSpan { path, start, end } => match res {
                ToolResult::Text(t) => exists|k: int| 0 <= k < files@.len()
                    && #[trigger] t@ == span_text(files@[k].bytes@, start, end),
                ToolResult::FileNotFound => forall|k: int| 0 <= k < files@.len() ==> #[trigger] files@[k].rel_path@ != path@,
                _ => false,
            },
            ToolRequest::DefinitionOf { qual, last } => match definition(names.names(), names.quals(), symbols@, qual, last) {
                Some(id) => res == ToolResult::Definition(id),
                None => res == ToolResult::NoSymbol,
            },
            ToolRequest::CallersOf { qual, last } => match definition(names.names(), names.quals(), symbols@, qual, last) {
                Some(id) => res matches ToolResult::Callers(v)
                    && v@ == csr_list(graph.rev_offsets@, graph.rev_targets@, id as int),
                None => res == ToolResult::NoSymbol,
            },
            ToolRequest::Reaches { from_qual, from_last, to_qual, to_last } => match (
                definition(names.names(), names.quals(), symbols@, from_qual, from_last),
                definition(names.names(), names.quals(), symbols@, to_qual, to_last),
            ) {
                (Some(f), Some(t)) => res matches ToolResult::Reach { reaches: r, witness: w } && {
                    &&& r == reaches(*graph, f as int, t as int)
                    &&& (w@.len() > 0 <==> r)
                    &&& r ==> walk_from_to(*graph, w@, f as int, t as int)
                },
                _ => res == ToolResult::NoSymbol,
            },
            ToolRequest::Grep { pattern } => match res {
                ToolResult::Hits(h) => h@ == grep_hits(files@, encode_utf8(pattern@), files@.len() as int),
                _ => false,
            },
            ToolRequest::Unknown => res == ToolResult::UnknownTool,
        },
{
    proof {
        names.lemma_wf_lengths();
    }
    match req {
        ToolRequest::ReadSpan { path, start, end } => match find_file(files, path.as_str()) {
            Some(k) => {
                proof {
                    assert(files@[k as int].wf());
                }
                let t = files[k].read_span(*start, *end).to_owned();
                ToolResult::Text(t)
            },
            None => ToolResult::FileNotFound,
        },
        ToolRequest::DefinitionOf { qual, last } => {
            match names.definition_of(*qual, *last, symbols) {
                Some(id) => ToolResult::Definition(id),
                None => ToolResult::NoSymbol,
            }
        },
        ToolRequest::CallersOf { qual, last } => {
            proof {
                lemma_definition_in_range(names.names(), names.quals(), symbols@, *qual, *last);
            }
            match names.definition_of(*qual, *last, symbols) {
                Some(id) => {
                    let callers = graph.rev(id);
                    ToolResult::Callers(vstd::slice::slice_to_vec(callers))
                },
                None => ToolResult::NoSymbol,
            }
        },
        ToolRequest::Reaches { from_qual, from_last, to_qual, to_last } => {
            proof {
                lemma_definition_in_range(names.names(), names.quals(), symbols@, *from_qual, *from_last);
                lemma_definition_in_range(names.names(), names.quals(), symbols@, *to_qual, *to_last);
            }
            let f = names.definition_of(*from_qual, *from_last, symbols);
            let t = names.definition_of(*to_qual, *to_last, symbols);
            match (f, t) {
                (Some(f), Some(t)) => {
                    let r = symbol_reaches(graph, cond, labels, f, t);
                    let w = match witness_chain(graph, f, t) {
                        Some(p) => p,
                        None => Vec::new(),
                    };
                    ToolResult::Reach { reaches: r, witness: w }
                },
                _ => ToolResult::NoSymbol,
            }
        },
        ToolRequest::Grep { pattern } => ToolResult::Hits(grep(files, pattern.as_str())),
        ToolRequest::Unknown => ToolResult::UnknownTool,
    }
}

} // verus!
