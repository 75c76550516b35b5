//! Source file storage: per-file bytes plus the line table, reading a byte
//! span back as text, and converting `proc-macro2` line/column positions
//! (1-based line, 0-based character column) to byte offsets.

use vstd::prelude::*;
use vstd::utf8::{valid_utf8, decode_utf8, is_continuation_byte};
use crate::index::span::{FileId, Span, LineCol, LineTable, line_table_of, newline_starts};
use std::path::PathBuf;

verus! {

#[verifier::external_type_specification]
#[verifier::external_body]
pub struct ExPathBuf(std::path::PathBuf);

/// `PathBuf::clone`: a copy of the path; nothing is claimed of it.
pub assume_specification[<std::path::PathBuf as std::clone::Clone>::clone](p: &PathBuf) -> PathBuf;

/// `std::str::from_utf8`: the text when the bytes are valid UTF-8.
#[verifier::external_body]
pub(crate) fn str_from_utf8<'a>(b: &'a [u8]) -> (res: Option<&'a str>)
    ensures
        match res {
            Some(s) => valid_utf8(b@) && s@ == decode_utf8(b@),
            None => !valid_utf8(b@),
        },
{
    std::str::from_utf8(b).ok()
}

/// One source file: its bytes and their line table.
#[derive(Clone, Debug)]
pub struct SourceFile {
    pub id: FileId,
    pub path: PathBuf,
    /// Canonicalized relative path (for stable cross-platform keys).
    pub rel_path: String,
    pub bytes: Vec<u8>,
    pub line_table: LineTable,
}

/// The text of bytes `start..end` (end clamped to the file); empty when the
/// range is empty or does not decode as UTF-8.
pub open spec fn span_text(bytes: Seq<u8>, start: u32, end: u32) -> Seq<char> {
    let e = if end as int <= bytes.len() { end as int } else { bytes.len() as int };
    if start >= e {
        Seq::empty()
    } else {
        let sub = bytes.subrange(start as int, e);
        if valid_utf8(sub) {
            decode_utf8(sub)
        } else {
            Seq::empty()
        }
    }
}

/// Offsets (within `s`) of the bytes that start a character.
pub open spec fn char_starts(s: Seq<u8>) -> Seq<int>
    decreases s.len(),
{
    if s.len() == 0 {
        Seq::empty()
    } else if is_continuation_byte(s.last()) {
        char_starts(s.drop_last())
    } else {
        char_starts(s.drop_last()).push(s.len() - 1)
    }
}

/// Strip trailing `\n` / `\r` bytes of `lo..e`, not going below `lo`.
pub open spec fn strip_eol(bytes: Seq<u8>, lo: int, e: int) -> int
    decreases e - lo,
{
    if e > lo && (bytes[e - 1] == 10u8 || bytes[e - 1] == 13u8) {
        strip_eol(bytes, lo, e - 1)
    } else {
        e
    }
}

/// The table row of a 1-based line, clamped into the table.
pub open spec fn line_row(rows: int, line: int) -> int {
    let r = if line >= 1 { line - 1 } else { 0 };
    if r <= rows - 1 { r } else { rows - 1 }
}

/// The byte offset of a `LineCol`: the start of the `column`-th character of
/// its line, or the end of the line's content when the column is past it
/// (or the line is not valid UTF-8).
pub open spec fn position_to_byte(bytes: Seq<u8>, starts: Seq<u32>, lc: LineCol) -> int {
    let idx = line_row(starts.len() as int, lc.line as int);
    let line_start = starts[idx] as int;
    let line_end = if idx + 1 < starts.len() {
        strip_eol(bytes, line_start, starts[idx + 1] as int)
    } else {
        bytes.len() as int
    };
    let line = bytes.subrange(line_start, line_end);
    if valid_utf8(line) && lc.column < char_starts(line).len() {
        line_start + char_starts(line)[lc.column as int]
    } else {
        line_end
    }
}

proof fn lemma_newline_starts(src: Seq<u8>)
    requires
        src.len() <= u32::MAX,
    ensures
        forall|i: int| 0 <= i < newline_starts(src).len() ==> 1 <= #[trigger] newline_starts(src)[i] <= src.len(),
        forall|i: int, j: int| 0 <= i < j < newline_starts(src).len() ==>
            #[trigger] newline_starts(src)[i] < #[trigger] newline_starts(src)[j],
    decreases src.len(),
{
    if src.len() > 0 {
        let d = src.drop_last();
        lemma_newline_starts(d);
        let p = newline_starts(d);
        let q = newline_starts(src);
        if src.last() == 10u8 {
            assert(q == p.push(src.len() as u32));
            assert forall|i: int, j: int| 0 <= i < j < q.len() implies #[trigger] q[i] < #[trigger] q[j] by {
                if j < p.len() {
                    assert(q[i] == p[i] && q[j] == p[j]);
                } else {
                    assert(q[i] == p[i]);
                }
            }
        }
    }
}

pub(crate) proof fn lemma_table_shape(src: Seq<u8>)
    requires
        src.len() <= u32::MAX,
    ensures
        line_table_of(src).len() >= 2,
        line_table_of(src)[0] == 0,
        forall|i: int| 0 <= i < line_table_of(src).len() ==> #[trigger] line_table_of(src)[i] <= src.len(),
        forall|i: int, j: int| 0 <= i <= j < line_table_of(src).len() ==>
            #[trigger] line_table_of(src)[i] <= #[trigger] line_table_of(src)[j],
{
    lemma_newline_starts(src);
    let ns = newline_starts(src);
    let t = line_table_of(src);
    assert forall|i: int| 0 <= i < t.len() implies #[trigger] t[i] <= src.len() by {
        if 1 <= i <= ns.len() {
            assert(t[i] == ns[i - 1]);
        }
    }
    assert forall|i: int, j: int| 0 <= i <= j < t.len() implies #[trigger] t[i] <= #[trigger] t[j] by {
        if 1 <= i && j <= ns.len() && i < j {
            assert(t[i] == ns[i - 1] && t[j] == ns[j - 1]);
        }
        if 1 <= i <= ns.len() {
            assert(t[i] == ns[i - 1]);
        }
        if 1 <= j <= ns.len() {
            assert(t[j] == ns[j - 1]);
        }
    }
}

proof fn lemma_char_starts_prefix(s: Seq<u8>, k: int)
    requires
        0 <= k <= s.len(),
    ensures
        char_starts(s.take(k)).len() <= char_starts(s).len(),
        forall|i: int| 0 <= i < char_starts(s.take(k)).len() ==> #[trigger] char_starts(s)[i] == char_starts(s.take(k))[i],
    decreases s.len(),
{
    if k == s.len() {
        assert(s.take(k) =~= s);
    } else {
        lemma_char_starts_prefix(s.drop_last(), k);
        assert(s.drop_last().take(k) =~= s.take(k));
    }
}

impl SourceFile {
    /// The line table is the table of the bytes, and offsets fit in `u32`.
    pub open spec fn wf(&self) -> bool {
        &&& self.bytes@.len() <= u32::MAX
        &&& self.line_table.line_starts@ == line_table_of(self.bytes@)
    }

    /// The source text of bytes `start..end`; the end is clamped to the file,
    /// and an empty or non-UTF-8 range reads as `""`.
    pub fn read_span(&self, start: u32, end: u32) -> (res: &str)
        requires
            self.bytes@.len() <= u32::MAX,
        ensures
            res@ == span_text(self.bytes@, start, end),
    {
        let len = self.bytes.len() as u32;
        let end = if end < len { end } else { len };
        if start >= end {
            proof {
                reveal_strlit("");
            }
            return "";
        }
        let sub = vstd::slice::slice_subrange(self.bytes.as_slice(), start as usize, end as usize);
        match str_from_utf8(sub) {
            Some(s) => s,
            None => {
                proof {
                    reveal_strlit("");
                }
                ""
            },
        }
    }

    /// Convert a `proc-macro2` `LineCol` (1-based line, 0-based character
    /// column) to a byte offset: the column-th character of the line, or the
    /// end of the line's content if the column is past it.
    fn byte_offset(&self, lc: LineCol) -> (res: u32)
        requires
            self.wf(),
        ensures
            res == position_to_byte(self.bytes@, self.line_table.line_starts@, lc),
    {
        proof {
            lemma_table_shape(self.bytes@);
        }
        let starts = &self.line_table.line_starts;
        let rows = starts.len();
        let r: usize = if lc.line >= 1 { lc.line - 1 } else { 0 };
        let line_idx: usize = if r <= rows - 1 { r } else { rows - 1 };
        let line_start = starts[line_idx] as usize;
        let line_end: usize = if line_idx + 1 < rows {
            let mut end = starts[line_idx + 1] as usize;
            proof {
                assert(starts@[line_idx as int] <= starts@[line_idx + 1]);
            }
            while end > line_start && (self.bytes[end - 1] == 10u8 || self.bytes[end - 1] == 13u8)
                invariant
                    line_start <= end <= self.bytes@.len(),
                    strip_eol(self.bytes@, line_start as int, end as int)
                        == strip_eol(self.bytes@, line_start as int, starts@[line_idx + 1] as int),
                decreases end,
            {
                end = end - 1;
            }
            end
        } else {
            self.bytes.len()
        };
        let ghost line = self.bytes@.subrange(line_start as int, line_end as int);
        proof {
            let t = self.line_table.line_starts@;
            assert(line_idx == line_row(t.len() as int, lc.line as int));
            assert(line_end == if line_idx + 1 < t.len() {
                strip_eol(self.bytes@, line_start as int, t[line_idx + 1] as int)
            } else {
                self.bytes@.len() as int
            });
        }
        let sub = vstd::slice::slice_subrange(self.bytes.as_slice(), line_start, line_end);
        if str_from_utf8(sub).is_none() {
            return line_end as u32;
        }
        // The column-th character starts at the column-th byte that is not a
        // continuation byte.
        let mut seen: usize = 0;
        let mut j: usize = 0;
        while j < sub.len()
            invariant
                sub@ == line,
                valid_utf8(line),
                position_to_byte(self.bytes@, self.line_table.line_starts@, lc) == (
                    if lc.column < char_starts(line).len() { line_start + char_starts(line)[lc.column as int] }
                    else { line_end as int }),
                j <= sub@.len(),
                seen == char_starts(line.take(j as int)).len(),
                seen <= lc.column,
                line_start + sub@.len() <= u32::MAX,
            decreases sub@.len() - j,
        {
            let b = sub[j];
            proof {
                assert(line.take(j + 1).drop_last() =~= line.take(j as int));
            }
            if !(0x80u8 <= b && b <= 0xbfu8) {
                if seen == lc.column {
                    proof {
                        assert(char_starts(line.take(j + 1)) == char_starts(line.take(j as int)).push(j as int));
                        lemma_char_starts_prefix(line, j + 1);
                        assert(char_starts(line)[seen as int] == j);
                        assert(valid_utf8(line));
                        assert(lc.column < char_starts(line).len());
                    }
                    return (line_start + j) as u32;
                }
                seen = seen + 1;
            }
            j = j + 1;
        }
        proof {
            assert(line.take(j as int) =~= line);
        }
        line_end as u32
    }

    /// Build a byte span from `proc-macro2` line/column endpoints; an end
    /// before the start is raised to it.
    pub fn span_of(&self, file: FileId, start: LineCol, end: LineCol) -> (res: Span)
        requires
            self.wf(),
        ensures
            ({
                let s = position_to_byte(self.bytes@, self.line_table.line_starts@, start);
                let e = position_to_byte(self.bytes@, self.line_table.line_starts@, end);
                res == (Span { file, start: s as u32, end: if e >= s { e as u32 } else { s as u32 } })
            }),
    {
        let s = self.byte_offset(start);
        let e0 = self.byte_offset(end);
        let e = if e0 >= s { e0 } else { s };
        Span { file, start: s, end: e }
    }
}

} // verus!
