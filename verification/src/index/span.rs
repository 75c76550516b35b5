//! Spans as byte offsets, and the per-file line-start table that converts a
//! 1-based line / 0-based column position to a byte offset.

use vstd::prelude::*;

verus! {

/// A source file identifier.
pub type FileId = u32;

/// A byte-offset range within a single file. `end` is exclusive.
#[derive(Clone, Copy, Debug, PartialEq, Eq, Hash)]
pub struct Span {
    pub file: FileId,
    pub start: u32,
    pub end: u32,
}

impl Span {
    pub fn new(file: FileId, start: u32, end: u32) -> (res: Self)
        ensures
            res == (Span { file, start, end }),
    {
        Span { file, start, end }
    }

    /// Empty span at `start`.
    pub fn point(file: FileId, start: u32) -> (res: Self)
        ensures
            res == (Span { file, start, end: start }),
    {
        Span { file, start, end: start }
    }

    /// Number of bytes covered; zero when `end <= start`.
    pub fn len(&self) -> (res: u32)
        ensures
            res == (if self.end >= self.start { self.end - self.start } else { 0 }),
    {
        self.end.saturating_sub(self.start)
    }

    pub fn is_empty(&self) -> (res: bool)
        ensures
            res == (self.end <= self.start),
    {
        self.end <= self.start
    }

    /// Does `self` cover `other` (same file, byte range contains it)?
    pub fn contains(&self, other: &Span) -> (res: bool)
        ensures
            res == (self.file == other.file && self.start <= other.start && other.end <= self.end),
    {
        self.file == other.file && self.start <= other.start && other.end <= self.end
    }
}

/// 1-based line, 0-based column position.
#[derive(Clone, Copy, Debug, Default)]
pub struct LineCol {
    pub line: usize,
    pub column: usize,
}

impl LineCol {
    pub fn new(line: usize, column: usize) -> (res: Self)
        ensures
            res.line == line,
            res.column == column,
    {
        LineCol { line, column }
    }
}

/// Byte offsets of the starts of the newline-terminated lines of `src`:
/// one entry `i + 1` for every byte `src[i] == b'\n'`, in order.
pub open spec fn newline_starts(src: Seq<u8>) -> Seq<u32>
    decreases src.len(),
{
    if src.len() == 0 {
        Seq::empty()
    } else {
        let prev = newline_starts(src.drop_last());
        if src.last() == 10u8 {
            prev.push(src.len() as u32)
        } else {
            prev
        }
    }
}

/// The whole line table of `src`: `0`, then every newline start, then the
/// total length as a sentinel.
pub open spec fn line_table_of(src: Seq<u8>) -> Seq<u32> {
    seq![0u32] + newline_starts(src) + seq![src.len() as u32]
}

/// Byte offset of a 1-based line / 0-based column, clamped to the start of
/// the next line; `None` for line 0 or a line past the end of the file (the
/// table's last entry is the file's length, not the start of a line).
pub open spec fn line_col_to_byte(starts: Seq<u32>, lc: LineCol) -> Option<u32> {
    if lc.line == 0 || lc.line >= starts.len() {
        None
    } else {
        let idx = lc.line - 1;
        let start = starts[idx];
        let line_end = starts[idx + 1];
        let off = start + lc.column;
        Some(if off <= line_end { off as u32 } else { line_end })
    }
}

/// Per-file byte-offset table: `line_starts[i]` is the byte offset of the
/// start of 1-based line `i + 1`; the last entry is the total byte length.
#[derive(Clone, Debug, Default)]
pub struct LineTable {
    pub line_starts: Vec<u32>,
}

impl LineTable {
    /// Build a line-start table by a single scan of the source bytes.
    pub fn from_bytes(src: &[u8]) -> (res: Self)
        requires
            src@.len() <= u32::MAX,
        ensures
            res.line_starts@ == line_table_of(src@),
    {
        let mut starts: Vec<u32> = Vec::new();
        starts.push(0);
        let mut i: usize = 0;
        while i < src.len()
            invariant
                i <= src@.len(),
                src@.len() <= u32::MAX,
                starts@ == seq![0u32] + newline_starts(src@.subrange(0, i as int)),
            decreases src@.len() - i,
        {
            assert(src@.subrange(0, (i + 1) as int).drop_last() =~= src@.subrange(0, i as int));
            if src[i] == 10u8 {
                starts.push((i + 1) as u32);
            }
            i = i + 1;
        }
        assert(src@.subrange(0, src@.len() as int) =~= src@);
        starts.push(src.len() as u32);
        LineTable { line_starts: starts }
    }

    /// Convert a `LineCol` (1-based line, 0-based column) to a byte offset.
    /// Returns `None` for line 0 or a line past the end of the file.
    pub fn to_byte(&self, lc: LineCol) -> (res: Option<u32>)
        requires
            lc.line >= 1 && lc.line < self.line_starts@.len() ==>
                self.line_starts@[lc.line - 1] + lc.column <= usize::MAX,
        ensures
            res == line_col_to_byte(self.line_starts@, lc),
    {
        if lc.line == 0 {
            return None;
        }
        if lc.line >= self.line_starts.len() {
            return None;
        }
        let line_idx = lc.line - 1;
        let start = self.line_starts[line_idx];
        let line_end = self.line_starts[line_idx + 1];
        let off: usize = (start as usize) + lc.column;
        let clamped: u32 = if off <= line_end as usize { off as u32 } else { line_end };
        Some(clamped)
    }

    /// Convert a `(start, end)` `LineCol` pair to a byte span; an unknown
    /// start becomes 0 and an end before the start is raised to it.
    pub fn to_span(&self, file: FileId, start: LineCol, end: LineCol) -> (res: Span)
        requires
            start.line >= 1 && start.line < self.line_starts@.len() ==>
                self.line_starts@[start.line - 1] + start.column <= usize::MAX,
            end.line >= 1 && end.line < self.line_starts@.len() ==>
                self.line_starts@[end.line - 1] + end.column <= usize::MAX,
        ensures
            ({
                let s = match line_col_to_byte(self.line_starts@, start) {
                    Some(b) => b,
                    None => 0u32,
                };
                let e = match line_col_to_byte(self.line_starts@, end) {
                    Some(b) => b,
                    None => s,
                };
                res == (Span { file, start: s, end: if e >= s { e } else { s } })
            }),
    {
        let s = match self.to_byte(start) {
            Some(b) => b,
            None => 0,
        };
        let e0 = match self.to_byte(end) {
            Some(b) => b,
            None => s,
        };
        let e = if e0 >= s { e0 } else { s };
        Span::new(file, s, e)
    }
}

} // verus!
