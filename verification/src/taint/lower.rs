//! Lowering the call graph into the taint IR.
//!
//! Coarse by design: each function becomes the sequence of its callees in
//! increasing id order — a call to a sink-named function becomes a `Sink` of
//! the request value (variable 0), any other call an interprocedural `Call`
//! carrying it — followed by a return of the request value. Entry points seed
//! variable 0 as a source.

use vstd::prelude::*;
use crate::index::symbol::SymbolKind;
use crate::index::entry::{last_segment, last_segment_of};
use crate::index::reach::sorted_u32;
use crate::taint::ifds::{Function, Operand, SinkSite, Source, Stmt, TaintProblem};

verus! {

/// A character's code point after ASCII lower-casing.
pub open spec fn lower_code(c: char) -> int {
    if 'A' <= c && c <= 'Z' {
        (c as int) + 32
    } else {
        c as int
    }
}

/// Equal up to ASCII case.
pub open spec fn eq_ignore_case(a: Seq<char>, b: Seq<char>) -> bool {
    &&& a.len() == b.len()
    &&& forall|i: int| 0 <= i < a.len() ==> #[trigger] lower_code(a[i]) == lower_code(b[i])
}

/// Names of calls treated as sinks, compared up to ASCII case.
pub open spec fn is_sink_name(s: Seq<char>) -> bool {
    ||| eq_ignore_case(s, "unwrap"@)
    ||| eq_ignore_case(s, "expect"@)
    ||| eq_ignore_case(s, "panic"@)
    ||| eq_ignore_case(s, "query"@)
    ||| eq_ignore_case(s, "execute"@)
    ||| eq_ignore_case(s, "deserialize"@)
    ||| eq_ignore_case(s, "from_sql"@)
    ||| eq_ignore_case(s, "println"@)
    ||| eq_ignore_case(s, "eprintln"@)
    ||| eq_ignore_case(s, "log"@)
    ||| eq_ignore_case(s, "info"@)
    ||| eq_ignore_case(s, "warn"@)
    ||| eq_ignore_case(s, "error"@)
    ||| eq_ignore_case(s, "debug"@)
    ||| eq_ignore_case(s, "trace"@)
    ||| eq_ignore_case(s, "command"@)
    ||| eq_ignore_case(s, "write"@)
}

/// The statement a call to `callee`, named `name`, lowers to.
pub open spec fn lowered(st: Stmt, callee: u32, name: Seq<char>) -> bool {
    if is_sink_name(last_segment(name)) {
        st matches Stmt::Sink { val: Operand::Var(v) } && v == 0
    } else {
        st matches Stmt::Call { dst: Some(d), callee: c, args } && d == 0 && c == callee
            && args@ == seq![Operand::Var(0)]
    }
}

/// The call names documented as sinks, in their documented order.
pub open spec fn sink_names() -> Seq<Seq<char>> {
    seq![
        "unwrap"@, "expect"@, "panic"@, "query"@, "execute"@, "deserialize"@, "from_sql"@, "println"@, "eprintln"@, "log"@, "info"@, "warn"@, "error"@, "debug"@, "trace"@, "command"@, "write"@,
    ]
}

/// A name is a sink name exactly when it equals, up to ASCII case, one of
/// the documented sink names.
pub proof fn lemma_sink_name_is_the_list(s: Seq<char>)
    ensures
        is_sink_name(s) <==> exists|i: int| 0 <= i < sink_names().len() && eq_ignore_case(s, #[trigger] sink_names()[i]),
{
    let l = sink_names();
    if exists|i: int| 0 <= i < l.len() && eq_ignore_case(s, #[trigger] l[i]) {
        let i = choose|i: int| 0 <= i < l.len() && eq_ignore_case(s, #[trigger] l[i]);
        assert(0 <= i < 17);
    }
    if is_sink_name(s) {
        if eq_ignore_case(s, "unwrap"@) {
            assert(eq_ignore_case(s, l[0]));
        } else if eq_ignore_case(s, "expect"@) {
            assert(eq_ignore_case(s, l[1]));
        } else if eq_ignore_case(s, "panic"@) {
            assert(eq_ignore_case(s, l[2]));
        } else if eq_ignore_case(s, "query"@) {
            assert(eq_ignore_case(s, l[3]));
        } else if eq_ignore_case(s, "execute"@) {
            assert(eq_ignore_case(s, l[4]));
        } else if eq_ignore_case(s, "deserialize"@) {
            assert(eq_ignore_case(s, l[5]));
        } else if eq_ignore_case(s, "from_sql"@) {
            assert(eq_ignore_case(s, l[6]));
        } else if eq_ignore_case(s, "println"@) {
            assert(eq_ignore_case(s, l[7]));
        } else if eq_ignore_case(s, "eprintln"@) {
            assert(eq_ignore_case(s, l[8]));
        } else if eq_ignore_case(s, "log"@) {
            assert(eq_ignore_case(s, l[9]));
        } else if eq_ignore_case(s, "info"@) {
            assert(eq_ignore_case(s, l[10]));
        } else if eq_ignore_case(s, "warn"@) {
            assert(eq_ignore_case(s, l[11]));
        } else if eq_ignore_case(s, "error"@) {
            assert(eq_ignore_case(s, l[12]));
        } else if eq_ignore_case(s, "debug"@) {
            assert(eq_ignore_case(s, l[13]));
        } else if eq_ignore_case(s, "trace"@) {
            assert(eq_ignore_case(s, l[14]));
        } else if eq_ignore_case(s, "command"@) {
            assert(eq_ignore_case(s, l[15]));
        } else {
            assert(eq_ignore_case(s, l[16]));
        }
    }
}

/// A call whose last path segment is a documented sink name, up to ASCII
/// case, lowers to a sink of the request value.
pub proof fn lemma_listed_sink_call_is_sink(st: Stmt, callee: u32, name: Seq<char>, i: int)
    requires
        0 <= i < sink_names().len(),
        eq_ignore_case(last_segment(name), sink_names()[i]),
        lowered(st, callee, name),
    ensures
        st == (Stmt::Sink { val: Operand::Var(0) }),
{
    lemma_sink_name_is_the_list(last_segment(name));
}

/// A call whose last path segment is no documented sink name lowers to an
/// interprocedural call to its callee carrying the request value.
pub proof fn lemma_unlisted_call_is_call(st: Stmt, callee: u32, name: Seq<char>)
    requires
        forall|i: int| 0 <= i < sink_names().len() ==> !eq_ignore_case(last_segment(name), #[trigger] sink_names()[i]),
        lowered(st, callee, name),
    ensures
        st matches Stmt::Call { dst: Some(d), callee: c, args } && d == 0 && c == callee
            && args@ == seq![Operand::Var(0)],
{
    lemma_sink_name_is_the_list(last_segment(name));
}

/// In the lowering of a function, every callee named (by its last path
/// segment, up to ASCII case) by a documented sink name gives a sink of the
/// request value.
pub proof fn lemma_sink_callee_gives_sink(f: Function, id: int, callees: Seq<u32>, names: Seq<String>, j: int, i: int)
    requires
        lowered_fn(f, id, SymbolKind::Fn, callees, names),
        0 <= j < callees.len(),
        0 <= i < sink_names().len(),
        eq_ignore_case(last_segment(names[callees[j] as int]@), sink_names()[i]),
    ensures
        exists|k: int| 0 <= k < f.body@.len() && #[trigger] f.body@[k] == (Stmt::Sink { val: Operand::Var(0) }),
{
    let cs = choose|cs: Seq<u32>| #[trigger] sorted_u32(cs) && cs.to_multiset() == callees.to_multiset()
        && lowered_body(f.body@, cs, names);
    let c = callees[j];
    vstd::seq_lib::to_multiset_contains(callees, c);
    vstd::seq_lib::to_multiset_contains(cs, c);
    assert(callees.contains(c));
    let k = choose|k: int| 0 <= k < cs.len() && cs[k] == c;
    assert(lowered(f.body@[k], cs[k], names[cs[k] as int]@));
    lemma_listed_sink_call_is_sink(f.body@[k], cs[k], names[cs[k] as int]@, i);
}

/// `body` lowers the calls `cs`, in order, then returns the request value.
pub open spec fn lowered_body(body: Seq<Stmt>, cs: Seq<u32>, names: Seq<String>) -> bool {
    &&& body.len() == cs.len() + 1
    &&& forall|i: int| 0 <= i < cs.len() ==> #[trigger] lowered(body[i], cs[i], names[cs[i] as int]@)
    &&& body[cs.len() as int] matches Stmt::Return { val: Operand::Var(v) } && v == 0
}

/// `f` is the lowering of symbol `id` of kind `kind` with callees `callees`:
/// a function takes the request value and lowers its callees in increasing
/// order; any other symbol is a placeholder that returns a constant.
pub open spec fn lowered_fn(f: Function, id: int, kind: SymbolKind, callees: Seq<u32>, names: Seq<String>) -> bool {
    &&& f.id == id
    &&& if kind != SymbolKind::Fn {
        &&& f.params@.len() == 0
        &&& f.body@.len() == 1
        &&& f.body@[0] matches Stmt::Return { val: Operand::Const }
    } else {
        &&& f.params@ == seq![0u32]
        &&& exists|cs: Seq<u32>| #[trigger] sorted_u32(cs) && cs.to_multiset() == callees.to_multiset()
            && lowered_body(f.body@, cs, names)
    }
}

/// The sink sites among the first `m` statements of a body, in order.
pub open spec fn sinks_upto(id: u32, body: Seq<Stmt>, m: int) -> Seq<SinkSite>
    decreases m,
{
    if m <= 0 {
        Seq::empty()
    } else {
        sinks_upto(id, body, m - 1) + (if body[m - 1] is Sink {
            seq![SinkSite { func: id, stmt: (m - 1) as usize }]
        } else {
            Seq::empty()
        })
    }
}

/// The sink sites of a list of functions, function by function.
pub open spec fn all_sinks(fs: Seq<Function>) -> Seq<SinkSite>
    decreases fs.len(),
{
    if fs.len() == 0 {
        Seq::empty()
    } else {
        all_sinks(fs.drop_last()) + sinks_upto(fs.last().id, fs.last().body@, fs.last().body@.len() as int)
    }
}

proof fn lemma_sinks_upto(id: u32, body: Seq<Stmt>, m: int)
    requires
        0 <= m <= body.len(),
    ensures
        forall|t: int| 0 <= t < sinks_upto(id, body, m).len() ==> (#[trigger] sinks_upto(id, body, m)[t]).func == id
            && sinks_upto(id, body, m)[t].stmt < m,
    decreases m,
{
    if m > 0 {
        lemma_sinks_upto(id, body, m - 1);
        let a = sinks_upto(id, body, m - 1);
        let s = sinks_upto(id, body, m);
        assert forall|t: int| 0 <= t < s.len() implies (#[trigger] s[t]).func == id && s[t].stmt < m by {
            if t < a.len() {
                assert(s[t] == a[t]);
            }
        }
    }
}

proof fn lemma_all_sinks(fs: Seq<Function>)
    ensures
        forall|t: int| 0 <= t < all_sinks(fs).len() ==> exists|k: int| 0 <= k < fs.len()
            && (#[trigger] all_sinks(fs)[t]).func == fs[k].id && all_sinks(fs)[t].stmt < fs[k].body@.len(),
    decreases fs.len(),
{
    if fs.len() > 0 {
        let pre = fs.drop_last();
        lemma_all_sinks(pre);
        let last = fs.last();
        lemma_sinks_upto(last.id, last.body@, last.body@.len() as int);
        let a = all_sinks(pre);
        let b = sinks_upto(last.id, last.body@, last.body@.len() as int);
        let s = all_sinks(fs);
        assert(s == a + b);
        assert forall|t: int| 0 <= t < s.len() implies exists|k: int| 0 <= k < fs.len()
            && (#[trigger] s[t]).func == fs[k].id && s[t].stmt < fs[k].body@.len() by {
            if t < a.len() {
                assert(s[t] == a[t]);
                let k = choose|k: int| 0 <= k < pre.len() && (#[trigger] a[t]).func == pre[k].id && a[t].stmt < pre[k].body@.len();
                assert(fs[k] == pre[k]);
            } else {
                assert(s[t] == b[t - a.len()]);
                assert(fs[fs.len() - 1] == last);
            }
        }
    }
}

/// `slice::sort_unstable` on ids: the same multiset, in increasing order.
#[verifier::external_body]
fn sort_ids(v: &mut Vec<u32>)
    ensures
        final(v)@.to_multiset() == old(v)@.to_multiset(),
        sorted_u32(final(v)@),
{
    v.sort_unstable()
}

fn lower_code_of(c: char) -> (r: u32)
    ensures
        r == lower_code(c),
{
    if 'A' <= c && c <= 'Z' {
        (c as u32) + 32
    } else {
        c as u32
    }
}

/// `str::eq_ignore_ascii_case`, character by character.
fn eq_ignore_case_of(a: &str, b: &str) -> (r: bool)
    ensures
        r == eq_ignore_case(a@, b@),
{
    let n = a.unicode_len();
    if n != b.unicode_len() {
        return false;
    }
    let mut i: usize = 0;
    while i < n
        invariant
            n == a@.len(),
            n == b@.len(),
            i <= n,
            forall|k: int| 0 <= k < i ==> #[trigger] lower_code(a@[k]) == lower_code(b@[k]),
        decreases n - i,
    {
        if lower_code_of(a.get_char(i)) != lower_code_of(b.get_char(i)) {
            return false;
        }
        i = i + 1;
    }
    true
}

fn sink_name(s: &str) -> (r: bool)
    ensures
        r == is_sink_name(s@),
{
    eq_ignore_case_of(s, "unwrap") || eq_ignore_case_of(s, "expect") || eq_ignore_case_of(s, "panic")
        || eq_ignore_case_of(s, "query") || eq_ignore_case_of(s, "execute") || eq_ignore_case_of(s, "deserialize")
        || eq_ignore_case_of(s, "from_sql") || eq_ignore_case_of(s, "println") || eq_ignore_case_of(s, "eprintln")
        || eq_ignore_case_of(s, "log") || eq_ignore_case_of(s, "info") || eq_ignore_case_of(s, "warn")
        || eq_ignore_case_of(s, "error") || eq_ignore_case_of(s, "debug") || eq_ignore_case_of(s, "trace")
        || eq_ignore_case_of(s, "command") || eq_ignore_case_of(s, "write")
}

fn copy_ids(v: &Vec<u32>) -> (r: Vec<u32>)
    ensures
        r@ == v@,
{
    let mut r: Vec<u32> = Vec::new();
    let mut i: usize = 0;
    while i < v.len()
        invariant
            i <= v@.len(),
            r@ == v@.take(i as int),
        decreases v@.len() - i,
    {
        r.push(v[i]);
        proof {
            assert(v@.take(i + 1) =~= v@.take(i as int).push(v@[i as int]));
        }
        i = i + 1;
    }
    proof {
        assert(v@.take(v@.len() as int) =~= v@);
    }
    r
}

/// Lower symbol `id`.
fn lower_fn(id: u32, kind: SymbolKind, names: &[String], callees: &Vec<u32>) -> (f: Function)
    requires
        forall|j: int| 0 <= j < callees@.len() ==> #[trigger] callees@[j] < names@.len(),
    ensures
        lowered_fn(f, id as int, kind, callees@, names@),
{
    if kind != SymbolKind::Fn {
        let mut body: Vec<Stmt> = Vec::new();
        body.push(Stmt::Return { val: Operand::Const });
        return Function { id, params: Vec::new(), body };
    }
    let mut cs = copy_ids(callees);
    sort_ids(&mut cs);
    proof {
        broadcast use vstd::seq_lib::group_to_multiset_ensures;
        assert forall|j: int| 0 <= j < cs@.len() implies #[trigger] cs@[j] < names@.len() by {
            assert(cs@.contains(cs@[j]));
            assert(cs@.to_multiset().count(cs@[j]) > 0);
            assert(callees@.contains(cs@[j]));
        }
    }
    let mut body: Vec<Stmt> = Vec::new();
    let mut i: usize = 0;
    while i < cs.len()
        invariant
            i <= cs@.len(),
            body@.len() == i,
            forall|j: int| 0 <= j < cs@.len() ==> #[trigger] cs@[j] < names@.len(),
            forall|j: int| 0 <= j < i ==> #[trigger] lowered(body@[j], cs@[j], names@[cs@[j] as int]@),
        decreases cs@.len() - i,
    {
        let callee = cs[i];
        let last = last_segment_of(names[callee as usize].as_str());
        if sink_name(last) {
            body.push(Stmt::Sink { val: Operand::Var(0) });
        } else {
            let mut args: Vec<Operand> = Vec::new();
            args.push(Operand::Var(0));
            proof {
                assert(args@ =~= seq![Operand::Var(0)]);
            }
            body.push(Stmt::Call { dst: Some(0), callee, args });
        }
        proof {
            assert(lowered(body@[i as int], cs@[i as int], names@[cs@[i as int] as int]@));
        }
        i = i + 1;
    }
    body.push(Stmt::Return { val: Operand::Var(0) });
    let mut params: Vec<u32> = Vec::new();
    params.push(0);
    let f = Function { id, params, body };
    proof {
        assert(f.params@ =~= seq![0u32]);
        assert forall|j: int| 0 <= j < cs@.len() implies #[trigger] lowered(f.body@[j], cs@[j], names@[cs@[j] as int]@) by {
            assert(f.body@[j] == body@[j]);
        }
        assert(lowered_body(f.body@, cs@, names@));
        assert(sorted_u32(cs@));
    }
    f
}

/// Lower a call graph into the taint IR: symbol `k` has kind `kinds[k]`,
/// name `names[k]` and callees `callees[k]`; `entries` are the entry-point
/// symbols, each a source of its variable 0. Sinks are listed function by
/// function, statement by statement.
pub fn lower_to_taint(kinds: &[SymbolKind], names: &[String], callees: &[Vec<u32>], entries: &[u32]) -> (tp: TaintProblem)
    requires
        names@.len() == kinds@.len(),
        callees@.len() == kinds@.len(),
        kinds@.len() <= u32::MAX,
        forall|k: int, j: int| 0 <= k < callees@.len() && 0 <= j < callees@[k]@.len()
            ==> #[trigger] callees@[k]@[j] < names@.len(),
    ensures
        tp.functions@.len() == kinds@.len(),
        forall|k: int| 0 <= k < kinds@.len()
            ==> lowered_fn(#[trigger] tp.functions@[k], k, kinds@[k], callees@[k]@, names@),
        tp.sources@.len() == entries@.len(),
        forall|i: int| 0 <= i < entries@.len() ==> #[trigger] tp.sources@[i] == (Source { func: entries@[i], var: 0 }),
        tp.sinks@ == all_sinks(tp.functions@),
        (forall|i: int| 0 <= i < entries@.len() ==> #[trigger] entries@[i] < kinds@.len()) ==> tp.wf(),
{
    let n = kinds.len();
    let mut functions: Vec<Function> = Vec::new();
    let mut k: usize = 0;
    while k < n
        invariant
            n == kinds@.len(),
            names@.len() == n,
            callees@.len() == n,
            n <= u32::MAX,
            forall|a: int, j: int| 0 <= a < callees@.len() && 0 <= j < callees@[a]@.len()
                ==> #[trigger] callees@[a]@[j] < names@.len(),
            k <= n,
            functions@.len() == k,
            forall|a: int| 0 <= a < k ==> lowered_fn(#[trigger] functions@[a], a, kinds@[a], callees@[a]@, names@),
        decreases n - k,
    {
        let f = lower_fn(k as u32, kinds[k], names, &callees[k]);
        functions.push(f);
        k = k + 1;
    }
    let mut sources: Vec<Source> = Vec::new();
    let mut e: usize = 0;
    while e < entries.len()
        invariant
            e <= entries@.len(),
            sources@.len() == e,
            forall|i: int| 0 <= i < e ==> #[trigger] sources@[i] == (Source { func: entries@[i], var: 0 }),
        decreases entries@.len() - e,
    {
        sources.push(Source { func: entries[e], var: 0 });
        e = e + 1;
    }
    let mut sinks: Vec<SinkSite> = Vec::new();
    let mut a: usize = 0;
    proof {
        assert(sinks@ =~= all_sinks(functions@.take(0)));
    }
    while a < functions.len()
        invariant
            a <= functions@.len(),
            sinks@ == all_sinks(functions@.take(a as int)),
        decreases functions@.len() - a,
    {
        let f = &functions[a];
        let ghost s0 = sinks@;
        let mut i: usize = 0;
        while i < f.body.len()
            invariant
                i <= f.body@.len(),
                sinks@ == s0 + sinks_upto(f.id, f.body@, i as int),
            decreases f.body@.len() - i,
        {
            match &f.body[i] {
                Stmt::Sink { .. } => {
                    sinks.push(SinkSite { func: f.id, stmt: i });
                },
                _ => {},
            }
            proof {
                assert(sinks@ =~= s0 + sinks_upto(f.id, f.body@, i + 1));
            }
            i = i + 1;
        }
        proof {
            let pre = functions@.take(a as int);
            let post = functions@.take(a + 1);
            assert(post.drop_last() =~= pre);
            assert(post.last() == *f);
            assert(sinks@ =~= all_sinks(post));
        }
        a = a + 1;
    }
    proof {
        assert(functions@.take(functions@.len() as int) =~= functions@);
    }
    let tp = TaintProblem { functions, sources, sinks };
    proof {
        if forall|i: int| 0 <= i < entries@.len() ==> #[trigger] entries@[i] < kinds@.len() {
            lemma_all_sinks(tp.functions@);
            assert forall|q: int| 0 <= q < tp.sinks@.len() implies (#[trigger] tp.sinks@[q]).func < tp.nf()
                && tp.sinks@[q].stmt < tp.body(tp.sinks@[q].func as int).len() by {
                let k = choose|k: int| 0 <= k < tp.functions@.len() && (#[trigger] all_sinks(tp.functions@)[q]).func
                    == tp.functions@[k].id && all_sinks(tp.functions@)[q].stmt < tp.functions@[k].body@.len();
                assert(lowered_fn(tp.functions@[k], k, kinds@[k], callees@[k]@, names@));
            }
            assert forall|f: int, i: int| 0 <= f < tp.nf() && 0 <= i < tp.body(f).len() implies
                match #[trigger] tp.body(f)[i] {
                    Stmt::Call { callee, .. } => callee < tp.nf(),
                    _ => true,
                } by {
                assert(lowered_fn(tp.functions@[f], f, kinds@[f], callees@[f]@, names@));
                if kinds@[f] == SymbolKind::Fn {
                    let cs = choose|cs: Seq<u32>| #[trigger] sorted_u32(cs) && cs.to_multiset() == callees@[f]@.to_multiset()
                        && lowered_body(tp.functions@[f].body@, cs, names@);
                    if i < cs.len() {
                        assert(lowered(tp.body(f)[i], cs[i], names@[cs[i] as int]@));
                        broadcast use vstd::seq_lib::group_to_multiset_ensures;
                        assert(cs.contains(cs[i]));
                        assert(cs.to_multiset().count(cs[i]) > 0);
                        assert(callees@[f]@.contains(cs[i]));
                    }
                }
            }
            assert forall|q: int| 0 <= q < tp.sources@.len() implies (#[trigger] tp.sources@[q]).func < tp.nf() by {
                assert(entries@[q] < kinds@.len());
            }
            assert forall|q: int| 0 <= q < tp.nf() implies #[trigger] tp.functions@[q].id == q by {
                assert(lowered_fn(tp.functions@[q], q, kinds@[q], callees@[q]@, names@));
            }
        }
    }
    tp
}

} // verus!
