//! Symbols: declared items with a name and a definition site.

use vstd::prelude::*;
use crate::index::span::{FileId, Span};
use lasso::Spur;

verus! {

#[verifier::external_type_specification]
#[verifier::external_body]
pub struct ExSpur(lasso::Spur);

/// A declared symbol (fn, struct, …).
pub type SymbolId = u32;

/// Sentinel for "no symbol" — distinct from a valid symbol `0`.
pub const NO_SYMBOL: SymbolId = 0xFFFF_FFFFu32;

/// The kind of a declared item.
#[derive(Clone, Copy, Debug, PartialEq, Eq, Hash, Structural)]
pub enum SymbolKind {
    Fn,
    Struct,
    Enum,
    Variant,
    Trait,
    /// `impl Trait for Type` blocks — named by their self-type.
    Impl,
    Mod,
    Const,
    Static,
    TypeAlias,
    Macro,
    Field,
}

impl SymbolKind {
    /// Functions and enum variants (tuple constructors) can be called.
    pub fn is_callable(&self) -> (res: bool)
        ensures
            res == (*self == SymbolKind::Fn || *self == SymbolKind::Variant),
    {
        match self {
            SymbolKind::Fn | SymbolKind::Variant => true,
            _ => false,
        }
    }
}

/// A declared item extracted from the AST.
#[derive(Debug)]
pub struct Symbol {
    pub id: SymbolId,
    /// Short identifier (`f`), interned.
    pub name: Spur,
    /// Qualified path (`crate::mod::f`), interned. Best-effort.
    pub qual: Spur,
    pub kind: SymbolKind,
    pub file: FileId,
    /// Full definition span (whole item).
    pub span: Span,
    /// Identifier span alone.
    pub name_span: Span,
    /// Whether this symbol is a detected entry point (axum handler, main, …).
    pub entry: bool,
    /// Human-readable reason it was flagged as an entry point, if any.
    pub entry_reason: Option<String>,
}

impl Symbol {
    pub fn is_entry(&self) -> (res: bool)
        ensures
            res == self.entry,
    {
        self.entry
    }
}

/// A symbol as the parser found it, before it is given its id: interned
/// names, kind, file and byte spans, and why it is an entry point, if it is.
#[derive(Debug)]
pub struct SymbolDraft {
    pub name: Spur,
    pub qual: Spur,
    pub kind: SymbolKind,
    pub file: FileId,
    pub span: Span,
    pub name_span: Span,
    pub entry_reason: Option<String>,
}

/// Number the drafts into the symbol table: symbol `i` has id `i`, is an
/// entry point exactly when its draft gives a reason, and keeps the draft's
/// names, kind, file, spans and reason.
pub fn number_symbols(drafts: &[SymbolDraft]) -> (syms: Vec<Symbol>)
    requires
        drafts@.len() <= u32::MAX + 1,
    ensures
        syms@.len() == drafts@.len(),
        forall|i: int| 0 <= i < syms@.len() ==> {
            let s = #[trigger] syms@[i];
            let d = drafts@[i];
            &&& s.id == i
            &&& s.entry == (d.entry_reason is Some)
            &&& (s.entry_reason is Some) == (d.entry_reason is Some)
            &&& s.name == d.name
            &&& s.qual == d.qual
            &&& s.kind == d.kind
            &&& s.file == d.file
            &&& s.span == d.span
            &&& s.name_span == d.name_span
        },
{
    let mut syms: Vec<Symbol> = Vec::new();
    let mut i: usize = 0;
    while i < drafts.len()
        invariant
            i <= drafts@.len(),
            drafts@.len() <= u32::MAX + 1,
            syms@.len() == i,
            forall|k: int| 0 <= k < i ==> {
                let s = #[trigger] syms@[k];
                let d = drafts@[k];
                &&& s.id == k
                &&& s.entry == (d.entry_reason is Some)
                &&& (s.entry_reason is Some) == (d.entry_reason is Some)
                &&& s.name == d.name
                &&& s.qual == d.qual
                &&& s.kind == d.kind
                &&& s.file == d.file
                &&& s.span == d.span
                &&& s.name_span == d.name_span
            },
        decreases drafts@.len() - i,
    {
        let d = &drafts[i];
        let entry = d.entry_reason.is_some();
        let reason = d.entry_reason.clone();
        syms.push(Symbol {
            id: i as u32,
            name: d.name,
            qual: d.qual,
            kind: d.kind,
            file: d.file,
            span: d.span,
            name_span: d.name_span,
            entry,
            entry_reason: reason,
        });
        i = i + 1;
    }
    syms
}

} // verus!
