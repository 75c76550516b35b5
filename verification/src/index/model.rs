//! The parsed shape of a source file, as far as symbol and call extraction
//! need it, and the walks that extract them. A body's calls are listed in
//! the order a pre-order walk meets them: a call before its arguments, a
//! method call before its receiver and arguments, and the parts of every
//! other form in source order. Each item yields its symbols in source order,
//! qualified by the module path it is declared under.

use vstd::prelude::*;
use crate::index::entry::{texts, opt_text, entry_reason, classify_fn_entry};
use crate::index::naming::{qualified, qual_of, WalkCtx};
use crate::index::span::LineCol;
use crate::index::symbol::SymbolKind;
use vstd::string::StringExecFns;

verus! {

/// An expression, reduced to what call extraction reads.
pub enum ExprModel {
    /// `f(args)`: the callee path as written (`_` when it is not a path).
    Call { callee: String, args: Vec<ExprModel> },
    /// `receiver.method(args)`.
    MethodCall { method: String, receiver: Box<ExprModel>, args: Vec<ExprModel> },
    /// `|..| body`.
    Closure { body: Box<ExprModel> },
    /// `{ stmts }`, `loop { stmts }`.
    Block { stmts: Vec<StmtModel> },
    /// `if cond { then } else ..`.
    If { cond: Box<ExprModel>, then: Vec<StmtModel>, otherwise: Option<Box<ExprModel>> },
    /// `match scrutinee { arms }`.
    Match { scrutinee: Box<ExprModel>, arms: Vec<ArmModel> },
    /// `while cond { body }`, `for _ in iter { body }`.
    Loop { head: Box<ExprModel>, body: Vec<StmtModel> },
    /// Any form whose parts are walked in order: binary and assignment
    /// operands, tuple and array elements, the inner expression of a
    /// parenthesis, group, field access, reference, unary operator, await,
    /// `?`, `let` or `return`, and an index expression then its index.
    Parts { parts: Vec<ExprModel> },
    /// A path, a literal, or a form the walk does not enter.
    Leaf,
}

/// A match arm: its guard, if any, and its body.
pub struct ArmModel {
    pub guard: Option<ExprModel>,
    pub body: ExprModel,
}

/// A statement.
pub enum StmtModel {
    /// `let .. = init else diverge;`.
    Local { init: Option<ExprModel>, diverge: Option<ExprModel> },
    /// An expression statement.
    Expr { expr: ExprModel },
    /// A macro or a nested item: not entered.
    Skip,
}

/// The calls of an expression, in walk order.
pub open spec fn expr_calls(e: ExprModel) -> Seq<Seq<char>>
    decreases e,
{
    match e {
        ExprModel::Call { callee, args } => seq![callee@] + list_calls(args@),
        ExprModel::MethodCall { method, receiver, args } => seq![method@] + expr_calls(*receiver) + list_calls(args@),
        ExprModel::Closure { body } => expr_calls(*body),
        ExprModel::Block { stmts } => stmts_calls(stmts@),
        ExprModel::If { cond, then, otherwise } => expr_calls(*cond) + stmts_calls(then@) + match otherwise {
            Some(e) => expr_calls(*e),
            None => Seq::empty(),
        },
        ExprModel::Match { scrutinee, arms } => expr_calls(*scrutinee) + arms_calls(arms@),
        ExprModel::Loop { head, body } => expr_calls(*head) + stmts_calls(body@),
        ExprModel::Parts { parts } => list_calls(parts@),
        ExprModel::Leaf => Seq::empty(),
    }
}

/// The calls of a list of expressions, in order.
pub open spec fn list_calls(es: Seq<ExprModel>) -> Seq<Seq<char>>
    decreases es,
{
    if es.len() == 0 {
        Seq::empty()
    } else {
        list_calls(es.drop_last()) + expr_calls(es.last())
    }
}

/// The calls of a match arm: the guard's, then the body's.
pub open spec fn arm_calls(a: ArmModel) -> Seq<Seq<char>>
    decreases a,
{
    (match a.guard {
        Some(g) => expr_calls(g),
        None => Seq::empty(),
    }) + expr_calls(a.body)
}

/// The calls of a list of arms, in order.
pub open spec fn arms_calls(arms: Seq<ArmModel>) -> Seq<Seq<char>>
    decreases arms,
{
    if arms.len() == 0 {
        Seq::empty()
    } else {
        arms_calls(arms.drop_last()) + arm_calls(arms.last())
    }
}

/// The calls of a statement.
pub open spec fn stmt_calls(s: StmtModel) -> Seq<Seq<char>>
    decreases s,
{
    match s {
        StmtModel::Local { init, diverge } => match init {
            Some(i) => expr_calls(i) + match diverge {
                Some(d) => expr_calls(d),
                None => Seq::empty(),
            },
            None => Seq::empty(),
        },
        StmtModel::Expr { expr } => expr_calls(expr),
        StmtModel::Skip => Seq::empty(),
    }
}

/// The calls of a list of statements, in order.
pub open spec fn stmts_calls(ss: Seq<StmtModel>) -> Seq<Seq<char>>
    decreases ss,
{
    if ss.len() == 0 {
        Seq::empty()
    } else {
        stmts_calls(ss.drop_last()) + stmt_calls(ss.last())
    }
}

/// Appends the calls of `e` to `out`, in walk order.
pub fn collect_expr(e: &ExprModel, out: &mut Vec<String>)
    ensures
        texts(final(out)@) == texts(old(out)@) + expr_calls(*e),
    decreases e,
{
    let ghost o = texts(out@);
    match e {
        ExprModel::Call { callee, args } => {
            out.push(callee.clone());
            proof {
                assert(texts(out@) =~= o + seq![callee@]);
            }
            collect_list(args, out);
            proof {
                assert(o + seq![callee@] + list_calls(args@) =~= o + (seq![callee@] + list_calls(args@)));
            }
        },
        ExprModel::MethodCall { method, receiver, args } => {
            out.push(method.clone());
            proof {
                assert(texts(out@) =~= o + seq![method@]);
            }
            collect_expr(receiver, out);
            collect_list(args, out);
            proof {
                assert(o + seq![method@] + expr_calls(**receiver) + list_calls(args@)
                    =~= o + (seq![method@] + expr_calls(**receiver) + list_calls(args@)));
            }
        },
        ExprModel::Closure { body } => {
            collect_expr(body, out);
        },
        ExprModel::Block { stmts } => {
            collect_stmts(stmts, out);
        },
        ExprModel::If { cond, then, otherwise } => {
            collect_expr(cond, out);
            collect_stmts(then, out);
            let ghost mid = texts(out@);
            match otherwise {
                Some(x) => {
                    collect_expr(x, out);
                },
                None => {
                    proof {
                        assert(mid + Seq::<Seq<char>>::empty() =~= mid);
                    }
                },
            }
            proof {
                let tail = match otherwise {
                    Some(x) => expr_calls(**x),
                    None => Seq::<Seq<char>>::empty(),
                };
                assert(o + expr_calls(**cond) + stmts_calls(then@) + tail
                    =~= o + (expr_calls(**cond) + stmts_calls(then@) + tail));
            }
        },
        ExprModel::Match { scrutinee, arms } => {
            collect_expr(scrutinee, out);
            collect_arms(arms, out);
            proof {
                assert(o + expr_calls(**scrutinee) + arms_calls(arms@) =~= o + (expr_calls(**scrutinee) + arms_calls(arms@)));
            }
        },
        ExprModel::Loop { head, body } => {
            collect_expr(head, out);
            collect_stmts(body, out);
            proof {
                assert(o + expr_calls(**head) + stmts_calls(body@) =~= o + (expr_calls(**head) + stmts_calls(body@)));
            }
        },
        ExprModel::Parts { parts } => {
            collect_list(parts, out);
        },
        ExprModel::Leaf => {
            proof {
                assert(o + Seq::<Seq<char>>::empty() =~= o);
            }
        },
    }
}

/// Appends the calls of each of `es`, in order.
pub fn collect_list(es: &Vec<ExprModel>, out: &mut Vec<String>)
    ensures
        texts(final(out)@) == texts(old(out)@) + list_calls(es@),
    decreases es,
{
    let ghost o = texts(out@);
    let mut i: usize = 0;
    proof {
        assert(o + list_calls(es@.take(0)) =~= o);
    }
    while i < es.len()
        invariant
            i <= es@.len(),
            texts(out@) == o + list_calls(es@.take(i as int)),
        decreases es@.len() - i,
    {
        proof {
            assert(es@.take(i + 1).drop_last() =~= es@.take(i as int));
        }
        collect_expr(&es[i], out);
        proof {
            assert(o + list_calls(es@.take(i as int)) + expr_calls(es@[i as int])
                =~= o + list_calls(es@.take(i + 1)));
        }
        i = i + 1;
    }
    proof {
        assert(es@.take(es@.len() as int) =~= es@);
    }
}

/// Appends the calls of each arm, in order.
pub fn collect_arms(arms: &Vec<ArmModel>, out: &mut Vec<String>)
    ensures
        texts(final(out)@) == texts(old(out)@) + arms_calls(arms@),
    decreases arms,
{
    let ghost o = texts(out@);
    let mut i: usize = 0;
    proof {
        assert(o + arms_calls(arms@.take(0)) =~= o);
    }
    while i < arms.len()
        invariant
            i <= arms@.len(),
            texts(out@) == o + arms_calls(arms@.take(i as int)),
        decreases arms@.len() - i,
    {
        proof {
            assert(arms@.take(i + 1).drop_last() =~= arms@.take(i as int));
        }
        let arm = &arms[i];
        let ghost before = texts(out@);
        match &arm.guard {
            Some(g) => {
                collect_expr(g, out);
            },
            None => {
                proof {
                    assert(before + Seq::<Seq<char>>::empty() =~= before);
                }
            },
        }
        collect_expr(&arm.body, out);
        proof {
            let a = arms@[i as int];
            let gc = match a.guard {
                Some(g) => expr_calls(g),
                None => Seq::<Seq<char>>::empty(),
            };
            assert(before + gc + expr_calls(a.body) =~= before + arm_calls(a));
            assert(o + arms_calls(arms@.take(i as int)) + arm_calls(arms@[i as int])
                =~= o + arms_calls(arms@.take(i + 1)));
        }
        i = i + 1;
    }
    proof {
        assert(arms@.take(arms@.len() as int) =~= arms@);
    }
}

/// Appends the calls of each statement, in order.
pub fn collect_stmts(ss: &Vec<StmtModel>, out: &mut Vec<String>)
    ensures
        texts(final(out)@) == texts(old(out)@) + stmts_calls(ss@),
    decreases ss,
{
    let ghost o = texts(out@);
    let mut i: usize = 0;
    proof {
        assert(o + stmts_calls(ss@.take(0)) =~= o);
    }
    while i < ss.len()
        invariant
            i <= ss@.len(),
            texts(out@) == o + stmts_calls(ss@.take(i as int)),
        decreases ss@.len() - i,
    {
        proof {
            assert(ss@.take(i + 1).drop_last() =~= ss@.take(i as int));
        }
        let before_i = i;
        let ghost before = texts(out@);
        match &ss[i] {
            StmtModel::Local { init, diverge } => {
                match init {
                    Some(x) => {
                        collect_expr(x, out);
                        let ghost mid = texts(out@);
                        match diverge {
                            Some(d) => {
                                collect_expr(d, out);
                            },
                            None => {
                                proof {
                                    assert(mid + Seq::<Seq<char>>::empty() =~= mid);
                                }
                            },
                        }
                    },
                    None => {},
                }
            },
            StmtModel::Expr { expr } => {
                collect_expr(expr, out);
            },
            StmtModel::Skip => {},
        }
        proof {
            assert(texts(out@) =~= before + stmt_calls(ss@[before_i as int]));
            assert(o + stmts_calls(ss@.take(i as int)) + stmt_calls(ss@[i as int])
                =~= o + stmts_calls(ss@.take(i + 1)));
        }
        i = i + 1;
    }
    proof {
        assert(ss@.take(ss@.len() as int) =~= ss@);
    }
}

// ---------------------------------------------------------------------------
// Items and the symbols they declare.

/// A name with the span of its declaration and of the name itself.
pub struct DeclModel {
    pub name: String,
    pub span_start: LineCol,
    pub span_end: LineCol,
    pub name_start: LineCol,
    pub name_end: LineCol,
}

/// A function or method: its name, the paths of its attributes, its
/// parameter types as rendered, its spans, and its body (`None` for a trait
/// method without a default body).
pub struct FnModel {
    pub decl: DeclModel,
    pub attrs: Vec<String>,
    pub param_types: Vec<String>,
    pub body: Option<Vec<StmtModel>>,
}

/// An item of a source file.
pub enum ItemModel {
    Fn { f: FnModel },
    /// A module, with its items when they are written inline.
    Mod { decl: DeclModel, inline: Option<Vec<ItemModel>> },
    /// A struct and its named fields.
    Struct { decl: DeclModel, fields: Vec<DeclModel> },
    /// An enum and its variants.
    Enum { decl: DeclModel, variants: Vec<DeclModel> },
    /// A trait and its methods.
    Trait { decl: DeclModel, methods: Vec<FnModel> },
    /// An `impl` block: the declaration is named by the rendered self type.
    Impl { decl: DeclModel, methods: Vec<FnModel> },
    /// A const, static or type alias.
    Simple { kind: SymbolKind, decl: DeclModel },
    /// A macro or another item that declares nothing.
    Other,
}

/// A symbol as a file's walk finds it.
pub struct ProtoSymbol {
    pub name: String,
    pub qual: String,
    pub kind: SymbolKind,
    pub span_start: LineCol,
    pub span_end: LineCol,
    pub name_start: LineCol,
    pub name_end: LineCol,
    pub entry_reason: Option<String>,
}

/// A call found in the body of the file's `caller_local`-th symbol.
pub struct ProtoCall {
    pub caller_local: usize,
    pub callee: String,
}

/// A symbol as text.
pub struct SymSpec {
    pub name: Seq<char>,
    pub qual: Seq<char>,
    pub kind: SymbolKind,
    pub span_start: LineCol,
    pub span_end: LineCol,
    pub name_start: LineCol,
    pub name_end: LineCol,
    pub entry_reason: Option<Seq<char>>,
}

pub open spec fn sym_view(p: ProtoSymbol) -> SymSpec {
    SymSpec {
        name: p.name@,
        qual: p.qual@,
        kind: p.kind,
        span_start: p.span_start,
        span_end: p.span_end,
        name_start: p.name_start,
        name_end: p.name_end,
        entry_reason: opt_text(p.entry_reason),
    }
}

pub open spec fn syms_view(s: Seq<ProtoSymbol>) -> Seq<SymSpec> {
    s.map_values(|p: ProtoSymbol| sym_view(p))
}

pub open spec fn calls_view(s: Seq<ProtoCall>) -> Seq<(int, Seq<char>)> {
    s.map_values(|c: ProtoCall| (c.caller_local as int, c.callee@))
}

/// The symbol a declaration makes, of kind `kind`, qualified by `mods`.
pub open spec fn decl_sym(d: DeclModel, kind: SymbolKind, mods: Seq<String>) -> SymSpec {
    SymSpec {
        name: d.name@,
        qual: qualified(mods, d.name@),
        kind,
        span_start: d.span_start,
        span_end: d.span_end,
        name_start: d.name_start,
        name_end: d.name_end,
        entry_reason: None,
    }
}

/// The symbol a function makes: a `Fn`, with the entry-point reason its
/// name, attributes and parameter types give.
pub open spec fn fn_sym(f: FnModel, mods: Seq<String>) -> SymSpec {
    SymSpec {
        entry_reason: entry_reason(f.decl.name@, texts(f.attrs@), texts(f.param_types@)),
        ..decl_sym(f.decl, SymbolKind::Fn, mods)
    }
}

/// The calls of a function's body, attributed to symbol `local`.
pub open spec fn fn_calls(f: FnModel, local: int) -> Seq<(int, Seq<char>)> {
    match f.body {
        Some(b) => stmts_calls(b@).map_values(|c: Seq<char>| (local, c)),
        None => Seq::empty(),
    }
}

/// The symbols of a list of declarations of one kind.
pub open spec fn decls_syms(ds: Seq<DeclModel>, kind: SymbolKind, mods: Seq<String>) -> Seq<SymSpec> {
    ds.map_values(|d: DeclModel| decl_sym(d, kind, mods))
}

/// The symbols of a list of methods.
pub open spec fn fns_syms(fs: Seq<FnModel>, mods: Seq<String>) -> Seq<SymSpec> {
    fs.map_values(|f: FnModel| fn_sym(f, mods))
}

/// The calls of a list of methods whose symbols start at number `base`.
pub open spec fn fns_calls(fs: Seq<FnModel>, base: int) -> Seq<(int, Seq<char>)>
    decreases fs.len(),
{
    if fs.len() == 0 {
        Seq::empty()
    } else {
        fns_calls(fs.drop_last(), base) + fn_calls(fs.last(), base + fs.len() - 1)
    }
}

/// The symbols of one item under module path `mods`.
pub open spec fn item_syms(it: ItemModel, mods: Seq<String>) -> Seq<SymSpec>
    decreases it,
{
    match it {
        ItemModel::Fn { f } => seq![fn_sym(f, mods)],
        ItemModel::Mod { decl, inline } => seq![decl_sym(decl, SymbolKind::Mod, mods)] + match inline {
            Some(items) => items_syms(items@, mods.push(decl.name)),
            None => Seq::empty(),
        },
        ItemModel::Struct { decl, fields } => seq![decl_sym(decl, SymbolKind::Struct, mods)]
            + decls_syms(fields@, SymbolKind::Field, mods),
        ItemModel::Enum { decl, variants } => seq![decl_sym(decl, SymbolKind::Enum, mods)]
            + decls_syms(variants@, SymbolKind::Variant, mods),
        ItemModel::Trait { decl, methods } => seq![decl_sym(decl, SymbolKind::Trait, mods)]
            + fns_syms(methods@, mods),
        ItemModel::Impl { decl, methods } => seq![SymSpec {
            qual: qualified(mods, impl_name(decl.name@)),
            ..decl_sym(decl, SymbolKind::Impl, mods)
        }] + fns_syms(methods@, mods),
        ItemModel::Simple { kind, decl } => seq![decl_sym(decl, kind, mods)],
        ItemModel::Other => Seq::empty(),
    }
}

/// The symbols of a list of items, in order.
pub open spec fn items_syms(items: Seq<ItemModel>, mods: Seq<String>) -> Seq<SymSpec>
    decreases items,
{
    if items.len() == 0 {
        Seq::empty()
    } else {
        items_syms(items.drop_last(), mods) + item_syms(items.last(), mods)
    }
}

/// The calls of one item whose first symbol is number `base`.
pub open spec fn item_calls(it: ItemModel, mods: Seq<String>, base: int) -> Seq<(int, Seq<char>)>
    decreases it,
{
    match it {
        ItemModel::Fn { f } => fn_calls(f, base),
        ItemModel::Mod { decl, inline } => match inline {
            Some(items) => items_calls(items@, mods.push(decl.name), base + 1),
            None => Seq::empty(),
        },
        ItemModel::Trait { decl, methods } => fns_calls(methods@, base + 1),
        ItemModel::Impl { decl, methods } => fns_calls(methods@, base + 1),
        _ => Seq::empty(),
    }
}

/// The calls of a list of items whose first symbol is number `base`.
pub open spec fn items_calls(items: Seq<ItemModel>, mods: Seq<String>, base: int) -> Seq<(int, Seq<char>)>
    decreases items,
{
    if items.len() == 0 {
        Seq::empty()
    } else {
        items_calls(items.drop_last(), mods, base)
            + item_calls(items.last(), mods, base + items_syms(items.drop_last(), mods).len())
    }
}

/// The name an `impl` block is qualified by: `<impl T>`.
pub open spec fn impl_name(self_ty: Seq<char>) -> Seq<char> {
    seq!['<', 'i', 'm', 'p', 'l', ' '] + self_ty + seq!['>']
}

/// `<impl T>` for the rendered self type `T`.
fn impl_name_of(self_ty: &str) -> (s: String)
    ensures
        s@ == impl_name(self_ty@),
{
    proof {
        reveal_strlit("<impl ");
        reveal_strlit(">");
    }
    let mut s = String::from_str("<impl ");
    s.append(self_ty);
    s.append(">");
    proof {
        assert(s@ =~= impl_name(self_ty@));
    }
    s
}

/// The symbol of a declaration of kind `kind` at `ctx`.
fn decl_symbol(d: &DeclModel, kind: SymbolKind, ctx: &WalkCtx) -> (p: ProtoSymbol)
    ensures
        sym_view(p) == decl_sym(*d, kind, ctx.mod_path@),
{
    ProtoSymbol {
        name: d.name.clone(),
        qual: qual_of(ctx, d.name.as_str()),
        kind,
        span_start: d.span_start,
        span_end: d.span_end,
        name_start: d.name_start,
        name_end: d.name_end,
        entry_reason: None,
    }
}

/// The symbol of a function at `ctx`.
fn fn_symbol(f: &FnModel, ctx: &WalkCtx) -> (p: ProtoSymbol)
    ensures
        sym_view(p) == fn_sym(*f, ctx.mod_path@),
{
    let mut p = decl_symbol(&f.decl, SymbolKind::Fn, ctx);
    p.entry_reason = classify_fn_entry(f.decl.name.as_str(), f.attrs.as_slice(), f.param_types.as_slice());
    p
}

/// Appends the calls of `f`'s body, attributed to symbol `local`.
fn push_fn_calls(f: &FnModel, local: usize, calls: &mut Vec<ProtoCall>)
    ensures
        calls_view(final(calls)@) == calls_view(old(calls)@) + fn_calls(*f, local as int),
{
    let ghost o = calls_view(calls@);
    match &f.body {
        Some(b) => {
            let mut names: Vec<String> = Vec::new();
            collect_stmts(b, &mut names);
            let ghost cs = stmts_calls(b@);
            proof {
                assert(texts(names@) =~= cs) by {
                    assert(texts(Seq::<String>::empty()) + cs =~= cs);
                }
            }
            let mut k: usize = 0;
            while k < names.len()
                invariant
                    k <= names@.len(),
                    texts(names@) == cs,
                    calls_view(calls@) == o + cs.take(k as int).map_values(|c: Seq<char>| (local as int, c)),
                decreases names@.len() - k,
            {
                let ghost before = calls_view(calls@);
                calls.push(ProtoCall { caller_local: local, callee: names[k].clone() });
                proof {
                    assert(names@[k as int]@ == cs[k as int]);
                    assert(calls_view(calls@) =~= before.push((local as int, cs[k as int])));
                    assert(cs.take(k + 1).map_values(|c: Seq<char>| (local as int, c))
                        =~= cs.take(k as int).map_values(|c: Seq<char>| (local as int, c)).push((local as int, cs[k as int])));
                }
                k = k + 1;
            }
            proof {
                assert(cs.take(names@.len() as int) =~= cs);
            }
        },
        None => {
            proof {
                assert(o + Seq::<(int, Seq<char>)>::empty() =~= o);
            }
        },
    }
}

/// Appends the symbols of declarations of one kind.
fn push_decls(ds: &Vec<DeclModel>, kind: SymbolKind, ctx: &WalkCtx, symbols: &mut Vec<ProtoSymbol>)
    ensures
        syms_view(final(symbols)@) == syms_view(old(symbols)@) + decls_syms(ds@, kind, ctx.mod_path@),
{
    let ghost o = syms_view(symbols@);
    let ghost mods = ctx.mod_path@;
    let mut i: usize = 0;
    while i < ds.len()
        invariant
            i <= ds@.len(),
            mods == ctx.mod_path@,
            syms_view(symbols@) == o + decls_syms(ds@.take(i as int), kind, mods),
        decreases ds@.len() - i,
    {
        let ghost before = syms_view(symbols@);
        symbols.push(decl_symbol(&ds[i], kind, ctx));
        proof {
            assert(syms_view(symbols@) =~= before.push(decl_sym(ds@[i as int], kind, mods)));
            assert(decls_syms(ds@.take(i + 1), kind, mods) =~= decls_syms(ds@.take(i as int), kind, mods).push(decl_sym(ds@[i as int], kind, mods)));
        }
        i = i + 1;
    }
    proof {
        assert(ds@.take(ds@.len() as int) =~= ds@);
    }
}

/// Appends the symbols and calls of a list of methods.
fn push_methods(ms: &Vec<FnModel>, ctx: &WalkCtx, symbols: &mut Vec<ProtoSymbol>, calls: &mut Vec<ProtoCall>)
    ensures
        syms_view(final(symbols)@) == syms_view(old(symbols)@) + fns_syms(ms@, ctx.mod_path@),
        calls_view(final(calls)@) == calls_view(old(calls)@) + fns_calls(ms@, old(symbols)@.len() as int),
{
    let ghost o = syms_view(symbols@);
    let ghost oc = calls_view(calls@);
    let ghost base = symbols@.len() as int;
    let ghost mods = ctx.mod_path@;
    let mut i: usize = 0;
    while i < ms.len()
        invariant
            i <= ms@.len(),
            mods == ctx.mod_path@,
            symbols@.len() == base + i,
            syms_view(symbols@) == o + fns_syms(ms@.take(i as int), mods),
            calls_view(calls@) == oc + fns_calls(ms@.take(i as int), base),
        decreases ms@.len() - i,
    {
        let ghost before = syms_view(symbols@);
        let local = symbols.len();
        symbols.push(fn_symbol(&ms[i], ctx));
        let ghost cb = calls_view(calls@);
        push_fn_calls(&ms[i], local, calls);
        proof {
            assert(syms_view(symbols@) =~= before.push(fn_sym(ms@[i as int], mods)));
            assert(fns_syms(ms@.take(i + 1), mods) =~= fns_syms(ms@.take(i as int), mods).push(fn_sym(ms@[i as int], mods)));
            let t = ms@.take(i + 1);
            assert(t.drop_last() =~= ms@.take(i as int));
            assert(fns_calls(t, base) == fns_calls(ms@.take(i as int), base) + fn_calls(ms@[i as int], base + i));
            assert(oc + fns_calls(ms@.take(i as int), base) + fn_calls(ms@[i as int], base + i)
                =~= oc + fns_calls(t, base));
        }
        i = i + 1;
    }
    proof {
        assert(ms@.take(ms@.len() as int) =~= ms@);
    }
}

/// Appends the symbols and calls of a file's items, walking inline modules
/// with their names pushed on `ctx`'s module path; `ctx` is as it was when
/// the walk returns.
pub fn walk_items(items: &Vec<ItemModel>, ctx: &mut WalkCtx, symbols: &mut Vec<ProtoSymbol>, calls: &mut Vec<ProtoCall>)
    ensures
        final(ctx).mod_path@ == old(ctx).mod_path@,
        syms_view(final(symbols)@) == syms_view(old(symbols)@) + items_syms(items@, old(ctx).mod_path@),
        calls_view(final(calls)@) == calls_view(old(calls)@)
            + items_calls(items@, old(ctx).mod_path@, old(symbols)@.len() as int),
    decreases items,
{
    let ghost o = syms_view(symbols@);
    let ghost oc = calls_view(calls@);
    let ghost base = symbols@.len() as int;
    let ghost mods = ctx.mod_path@;
    let mut i: usize = 0;
    proof {
        assert(o + items_syms(items@.take(0), mods) =~= o);
        assert(oc + items_calls(items@.take(0), mods, base) =~= oc);
    }
    while i < items.len()
        invariant
            i <= items@.len(),
            ctx.mod_path@ == mods,
            syms_view(symbols@) == o + items_syms(items@.take(i as int), mods),
            calls_view(calls@) == oc + items_calls(items@.take(i as int), mods, base),
            symbols@.len() == base + items_syms(items@.take(i as int), mods).len(),
        decreases items@.len() - i,
    {
        let ghost s0 = syms_view(symbols@);
        let ghost c0 = calls_view(calls@);
        let ghost len0 = symbols@.len() as int;
        walk_item(&items[i], ctx, symbols, calls);
        proof {
            let t = items@.take(i + 1);
            assert(t.drop_last() =~= items@.take(i as int));
            assert(t.last() == items@[i as int]);
            assert(o + items_syms(items@.take(i as int), mods) + item_syms(items@[i as int], mods)
                =~= o + items_syms(t, mods));
            assert(oc + items_calls(items@.take(i as int), mods, base) + item_calls(items@[i as int], mods, len0)
                =~= oc + items_calls(t, mods, base));
            assert(symbols@.len() == syms_view(symbols@).len());
            assert(s0.len() == len0);
        }
        i = i + 1;
    }
    proof {
        assert(items@.take(items@.len() as int) =~= items@);
    }
}

/// Appends the symbols and calls of one item.
fn walk_item(it: &ItemModel, ctx: &mut WalkCtx, symbols: &mut Vec<ProtoSymbol>, calls: &mut Vec<ProtoCall>)
    ensures
        final(ctx).mod_path@ == old(ctx).mod_path@,
        syms_view(final(symbols)@) == syms_view(old(symbols)@) + item_syms(*it, old(ctx).mod_path@),
        calls_view(final(calls)@) == calls_view(old(calls)@) + item_calls(*it, old(ctx).mod_path@, old(symbols)@.len() as int),
    decreases it,
{
    let ghost o = syms_view(symbols@);
    let ghost oc = calls_view(calls@);
    let ghost mods = ctx.mod_path@;
    let local = symbols.len();
    match it {
        ItemModel::Fn { f } => {
            symbols.push(fn_symbol(f, ctx));
            push_fn_calls(f, local, calls);
            proof {
                assert(syms_view(symbols@) =~= o + seq![fn_sym(*f, mods)]);
            }
        },
        ItemModel::Mod { decl, inline } => {
            symbols.push(decl_symbol(decl, SymbolKind::Mod, ctx));
            let ghost s1 = syms_view(symbols@);
            proof {
                assert(s1 =~= o + seq![decl_sym(*decl, SymbolKind::Mod, mods)]);
            }
            match inline {
                Some(items) => {
                    ctx.mod_path.push(decl.name.clone());
                    walk_items(items, ctx, symbols, calls);
                    ctx.mod_path.pop();
                    proof {
                        assert(ctx.mod_path@ =~= mods);
                        assert(s1 + items_syms(items@, mods.push(decl.name))
                            =~= o + (seq![decl_sym(*decl, SymbolKind::Mod, mods)] + items_syms(items@, mods.push(decl.name))));
                    }
                },
                None => {
                    proof {
                        assert(s1 + Seq::<SymSpec>::empty() =~= s1);
                        assert(oc + Seq::<(int, Seq<char>)>::empty() =~= oc);
                    }
                },
            }
        },
        ItemModel::Struct { decl, fields } => {
            symbols.push(decl_symbol(decl, SymbolKind::Struct, ctx));
            let ghost s1 = syms_view(symbols@);
            push_decls(fields, SymbolKind::Field, ctx, symbols);
            proof {
                assert(s1 =~= o + seq![decl_sym(*decl, SymbolKind::Struct, mods)]);
                assert(s1 + decls_syms(fields@, SymbolKind::Field, mods)
                    =~= o + (seq![decl_sym(*decl, SymbolKind::Struct, mods)] + decls_syms(fields@, SymbolKind::Field, mods)));
                assert(oc + Seq::<(int, Seq<char>)>::empty() =~= oc);
            }
        },
        ItemModel::Enum { decl, variants } => {
            symbols.push(decl_symbol(decl, SymbolKind::Enum, ctx));
            let ghost s1 = syms_view(symbols@);
            push_decls(variants, SymbolKind::Variant, ctx, symbols);
            proof {
                assert(s1 =~= o + seq![decl_sym(*decl, SymbolKind::Enum, mods)]);
                assert(s1 + decls_syms(variants@, SymbolKind::Variant, mods)
                    =~= o + (seq![decl_sym(*decl, SymbolKind::Enum, mods)] + decls_syms(variants@, SymbolKind::Variant, mods)));
                assert(oc + Seq::<(int, Seq<char>)>::empty() =~= oc);
            }
        },
        ItemModel::Trait { decl, methods } => {
            symbols.push(decl_symbol(decl, SymbolKind::Trait, ctx));
            let ghost s1 = syms_view(symbols@);
            push_methods(methods, ctx, symbols, calls);
            proof {
                assert(s1 =~= o + seq![decl_sym(*decl, SymbolKind::Trait, mods)]);
                assert(s1 + fns_syms(methods@, mods)
                    =~= o + (seq![decl_sym(*decl, SymbolKind::Trait, mods)] + fns_syms(methods@, mods)));
            }
        },
        ItemModel::Impl { decl, methods } => {
            let mut p = decl_symbol(decl, SymbolKind::Impl, ctx);
            let label = impl_name_of(decl.name.as_str());
            p.qual = qual_of(ctx, label.as_str());
            let ghost head = SymSpec {
                qual: qualified(mods, impl_name(decl.name@)),
                ..decl_sym(*decl, SymbolKind::Impl, mods)
            };
            symbols.push(p);
            let ghost s1 = syms_view(symbols@);
            push_methods(methods, ctx, symbols, calls);
            proof {
                assert(s1 =~= o + seq![head]);
                assert(s1 + fns_syms(methods@, mods) =~= o + (seq![head] + fns_syms(methods@, mods)));
            }
        },
        ItemModel::Simple { kind, decl } => {
            symbols.push(decl_symbol(decl, *kind, ctx));
            proof {
                assert(syms_view(symbols@) =~= o + seq![decl_sym(*decl, *kind, mods)]);
                assert(oc + Seq::<(int, Seq<char>)>::empty() =~= oc);
            }
        },
        ItemModel::Other => {
            proof {
                assert(o + Seq::<SymSpec>::empty() =~= o);
                assert(oc + Seq::<(int, Seq<char>)>::empty() =~= oc);
            }
        },
    }
}

} // verus!
