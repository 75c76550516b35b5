//! Interprocedural taint as IFDS-style reachability over the exploded
//! supergraph: a fact `(function, statement, variable)` says that the
//! variable is tainted at the input of that statement (statement
//! `body.len()` is the function's exit). A worklist saturates the set of
//! facts reachable from the sources; a sink reports when its variable is
//! tainted there.
//!
//! The analysis is context-insensitive: a tainted return reaches every call
//! site of the function. That over-approximates, never under-reports.

use vstd::prelude::*;
use vstd::set_lib::{set_int_range, lemma_int_range, lemma_len_subset};
use vstd::arithmetic::div_mod::lemma_fundamental_div_mod_converse;
use rustc_hash::{FxBuildHasher, FxHashMap, FxHashSet};
use crate::index::idset::{id_set_new, id_set_insert};

verus! {

#[verifier::external_type_specification]
#[verifier::external_body]
pub struct ExFxBuildHasher(rustc_hash::FxBuildHasher);

/// A variable id (global, unique across the workspace model).
pub type Var = u32;
/// A function id: its position in `TaintProblem::functions`.
pub type Func = u32;
/// `(function, statement index, tainted variable)`.
pub type Fact = (u32, usize, u32);

/// An operand: a variable or a constant.
#[derive(Clone, Copy, Debug, PartialEq, Eq, Structural)]
pub enum Operand {
    Var(Var),
    Const,
}

/// A statement of the small taint IR. Statements run in order within a
/// function; branches are not modelled (over-approximation is sound).
#[derive(Clone, Debug)]
pub enum Stmt {
    /// `dst = src` (or `dst = <const>`).
    Assign { dst: Var, src: Operand },
    /// `dst? = callee(args)` — interprocedural call.
    Call { dst: Option<Var>, callee: Func, args: Vec<Operand> },
    /// A sink: reports if `val` is tainted at this point.
    Sink { val: Operand },
    /// `return val`.
    Return { val: Operand },
    /// A sanitizer: taint of `var` is killed here (allow-list).
    Sanitize { var: Var },
    /// No-op / pass-through.
    Nop,
}

/// A function in the model.
#[derive(Clone, Debug)]
pub struct Function {
    pub id: Func,
    pub params: Vec<Var>,
    pub body: Vec<Stmt>,
}

/// One taint source: a variable that is tainted at a function's entry.
#[derive(Clone, Copy, Debug, PartialEq, Eq, Structural)]
pub struct Source {
    pub func: Func,
    pub var: Var,
}

/// One sink: a `Stmt::Sink` occurrence (function + statement index).
#[derive(Clone, Copy, Debug, PartialEq, Eq, Structural)]
pub struct SinkSite {
    pub func: Func,
    pub stmt: usize,
}

/// The interprocedural taint problem.
pub struct TaintProblem {
    pub functions: Vec<Function>,
    pub sources: Vec<Source>,
    pub sinks: Vec<SinkSite>,
}

/// A confirmed taint flow: source → sink, with a witness path of
/// `(function, statement)` steps.
#[derive(Clone, Debug)]
pub struct Flow {
    pub source: Source,
    pub sink: SinkSite,
    /// Witness: ordered list of (function, statement index) on the path.
    pub witness: Vec<(Func, usize)>,
}

/// Fact equality, field by field.
fn fact_eq(a: Fact, b: Fact) -> (res: bool)
    ensures
        res == (a == b),
{
    a.0 == b.0 && a.1 == b.1 && a.2 == b.2
}

/// The variable of the last `return <var>` of a body, if any.
pub open spec fn last_return(body: Seq<Stmt>) -> Option<Var>
    decreases body.len(),
{
    if body.len() == 0 {
        None
    } else {
        match body.last() {
            Stmt::Return { val: Operand::Var(v) } => Some(v),
            _ => last_return(body.drop_last()),
        }
    }
}

impl TaintProblem {
    pub open spec fn nf(&self) -> int {
        self.functions@.len() as int
    }

    pub open spec fn body(&self, f: int) -> Seq<Stmt> {
        self.functions@[f].body@
    }

    pub open spec fn params(&self, f: int) -> Seq<Var> {
        self.functions@[f].params@
    }

    /// Function ids are their positions, and every function, call and sink
    /// that the problem names exists.
    pub open spec fn wf(&self) -> bool {
        &&& forall|k: int| 0 <= k < self.nf() ==> #[trigger] self.functions@[k].id == k
        &&& forall|k: int| 0 <= k < self.sources@.len() ==> (#[trigger] self.sources@[k]).func < self.nf()
        &&& forall|k: int| 0 <= k < self.sinks@.len() ==> (#[trigger] self.sinks@[k]).func < self.nf()
            && self.sinks@[k].stmt < self.body(self.sinks@[k].func as int).len()
        &&& forall|f: int, i: int| 0 <= f < self.nf() && 0 <= i < self.body(f).len() ==>
            match #[trigger] self.body(f)[i] {
                Stmt::Call { callee, .. } => callee < self.nf(),
                _ => true,
            }
    }

    /// A fact that a source seeds: the source's variable at its function's entry.
    pub open spec fn seed(&self, t: Fact) -> bool {
        exists|k: int| 0 <= k < self.sources@.len()
            && t == (#[trigger] self.sources@[k].func, 0usize, self.sources@[k].var)
    }

    /// Fact `b` follows from fact `a` by one transfer: along a statement, into
    /// a callee's parameter, or from a function's exit back to a caller.
    #[verifier::opaque]
    pub open spec fn step(&self, a: Fact, b: Fact) -> bool {
        let f = a.0 as int;
        let idx = a.1 as int;
        let v = a.2;
        0 <= f < self.nf() && idx <= self.body(f).len() && if idx == self.body(f).len() {
            exists|caller: int, ci: int|
                0 <= caller < self.nf() && 0 <= ci < self.body(caller).len()
                && #[trigger] self.return_edge(f, v, caller, ci, b)
        } else {
            match self.body(f)[idx] {
                Stmt::Assign { dst, src } =>
                    (v != dst && b == (a.0, (idx + 1) as usize, v))
                    || (src == Operand::Var(v) && b == (a.0, (idx + 1) as usize, dst)),
                Stmt::Sanitize { var } => v != var && b == (a.0, (idx + 1) as usize, v),
                Stmt::Sink { .. } | Stmt::Nop => b == (a.0, (idx + 1) as usize, v),
                Stmt::Return { val } =>
                    b == (a.0, (idx + 1) as usize, v)
                    || (val == Operand::Var(v) && b == (a.0, self.body(f).len() as usize, v)),
                Stmt::Call { callee, args, .. } =>
                    b == (a.0, (idx + 1) as usize, v)
                    || exists|i: int| 0 <= i < args@.len() && #[trigger] args@[i] == Operand::Var(v)
                        && i < self.params(callee as int).len()
                        && b == (callee, 0usize, self.params(callee as int)[i]),
            }
        }
    }

    /// The taint of `v` at the exit of `callee` flows to the result variable
    /// of the call at statement `ci` of `caller`, when `v` is what `callee`
    /// returns.
    pub open spec fn return_edge(&self, callee: int, v: Var, caller: int, ci: int, b: Fact) -> bool {
        match self.body(caller)[ci] {
            Stmt::Call { dst: Some(d), callee: c, .. } =>
                c == callee && last_return(self.body(callee)) == Some(v)
                && b == (caller as u32, (ci + 1) as usize, d),
            _ => false,
        }
    }

    /// `p` is a chain of transfers from a seed.
    pub open spec fn is_derivation(&self, p: Seq<Fact>) -> bool {
        &&& p.len() >= 1
        &&& self.seed(p[0])
        &&& forall|i: int| 0 <= i < p.len() - 1 ==> self.step(#[trigger] p[i], p[i + 1])
    }

    /// The fact is tainted: some derivation from a source ends in it.
    pub open spec fn tainted(&self, t: Fact) -> bool {
        exists|p: Seq<Fact>| #[trigger] self.is_derivation(p) && p.last() == t
    }

    /// All tainted facts.
    pub open spec fn tainted_set(&self) -> Set<Fact> {
        Set::new(|t: Fact| self.tainted(t))
    }

    /// The sink's variable is tainted at the sink.
    pub open spec fn sink_hit(&self, s: SinkSite) -> bool {
        match self.body(s.func as int)[s.stmt as int] {
            Stmt::Sink { val: Operand::Var(sv) } => self.tainted((s.func, s.stmt, sv)),
            _ => false,
        }
    }
}

// ---------------------------------------------------------------------------
// Counting facts: every fact over `nf` functions is one of finitely many.

pub open spec fn fact_space() -> int {
    (usize::MAX as int + 1) * 0x1_0000_0000
}

pub open spec fn fact_code(t: Fact) -> int {
    (t.0 as int * (usize::MAX as int + 1) + t.1 as int) * 0x1_0000_0000 + t.2 as int
}

pub open spec fn fact_decode(c: int) -> Fact {
    let q = c / 0x1_0000_0000;
    ((q / (usize::MAX as int + 1)) as u32, (q % (usize::MAX as int + 1)) as usize, (c % 0x1_0000_0000) as u32)
}

proof fn lemma_fact_code(t: Fact, nf: int)
    requires
        t.0 < nf,
    ensures
        0 <= fact_code(t) < nf * fact_space(),
        fact_decode(fact_code(t)) == t,
{
    let u = usize::MAX as int + 1;
    let q = t.0 as int * u + t.1 as int;
    let c = q * 0x1_0000_0000 + t.2 as int;
    lemma_fundamental_div_mod_converse(c, 0x1_0000_0000, q, t.2 as int);
    lemma_fundamental_div_mod_converse(q, u, t.0 as int, t.1 as int);
    assert(0 <= q < nf * u) by (nonlinear_arith)
        requires
            q == t.0 as int * u + t.1 as int,
            0 <= t.1 < u,
            0 <= t.0 < nf,
    ;
    assert(0 <= c < nf * fact_space()) by (nonlinear_arith)
        requires
            c == q * 0x1_0000_0000 + t.2 as int,
            0 <= t.2 < 0x1_0000_0000,
            0 <= q < nf * u,
            fact_space() == u * 0x1_0000_0000,
    ;
}

/// A set of facts over `nf` functions has at most `nf * fact_space()`
/// elements.
proof fn lemma_fact_bound(s: Set<Fact>, nf: int)
    requires
        0 <= nf,
        forall|t: Fact| #[trigger] s.contains(t) ==> t.0 < nf,
    ensures
        s.finite(),
        s.len() <= nf * fact_space(),
{
    let fs = fact_space();
    let n = nf * fs;
    assert(fs >= 0);
    assert(n >= 0) by (nonlinear_arith)
        requires
            n == nf * fs,
            nf >= 0,
            fs >= 0,
    ;
    let codes = set_int_range(0, n);
    lemma_int_range(0, n);
    codes.lemma_map_finite(|c: int| fact_decode(c));
    let all = codes.map(|c: int| fact_decode(c));
    assert(s.subset_of(all)) by {
        assert forall|t: Fact| s.contains(t) implies all.contains(t) by {
            lemma_fact_code(t, nf);
            assert(codes.contains(fact_code(t)));
        }
    }
    lemma_len_subset(s, all);
    vstd::set_lib::lemma_map_size_bound(codes, all, |c: int| fact_decode(c));
}

// ---------------------------------------------------------------------------
// The rustc-hash collections the solver keeps its facts in. Each wrapper
// makes one call; its contract is what `std::collections` documents for the
// call, over the collection's contents (`@`). The Fx hasher is a
// deterministic function of the key, so these hold as for any hasher.

/// `FxHashSet::default()`: an empty set.
#[verifier::external_body]
fn fact_set_new() -> (s: FxHashSet<Fact>)
    ensures
        s@ == Set::<Fact>::empty(),
{
    FxHashSet::default()
}

/// `HashSet::insert`: adds `k`; `true` when it was not there before.
#[verifier::external_body]
fn fact_set_insert(s: &mut FxHashSet<Fact>, k: Fact) -> (res: bool)
    ensures
        final(s)@ == old(s)@.insert(k),
        res == !old(s)@.contains(k),
{
    s.insert(k)
}

/// `HashSet::contains`.
#[verifier::external_body]
fn fact_set_contains(s: &FxHashSet<Fact>, k: Fact) -> (res: bool)
    ensures
        res == s@.contains(k),
{
    s.contains(&k)
}

/// `FxHashMap::default()`: an empty map.
#[verifier::external_body]
fn fact_map_new() -> (m: FxHashMap<Fact, Fact>)
    ensures
        m@.dom() == Set::<Fact>::empty(),
{
    FxHashMap::default()
}

/// `HashMap::insert`: maps `k` to `v`, replacing any earlier value.
#[verifier::external_body]
fn fact_map_insert(m: &mut FxHashMap<Fact, Fact>, k: Fact, v: Fact)
    ensures
        final(m)@ == old(m)@.insert(k, v),
{
    m.insert(k, v);
}

/// `HashMap::get`, copied out.
#[verifier::external_body]
fn fact_map_get(m: &FxHashMap<Fact, Fact>, k: Fact) -> (res: Option<Fact>)
    ensures
        res == if m@.contains_key(k) { Some(m@[k]) } else { None::<Fact> },
{
    m.get(&k).copied()
}

// ---------------------------------------------------------------------------
// Derivations.

impl TaintProblem {
    pub proof fn lemma_seed_tainted(&self, t: Fact)
        requires
            self.seed(t),
        ensures
            self.tainted(t),
    {
        let p = seq![t];
        assert(self.is_derivation(p));
    }

    pub proof fn lemma_step_tainted(&self, a: Fact, b: Fact)
        requires
            self.tainted(a),
            self.step(a, b),
        ensures
            self.tainted(b),
    {
        let p = choose|p: Seq<Fact>| #[trigger] self.is_derivation(p) && p.last() == a;
        let q = p.push(b);
        assert forall|i: int| 0 <= i < q.len() - 1 implies self.step(#[trigger] q[i], q[i + 1]) by {
            if i < p.len() - 1 {
                assert(q[i] == p[i] && q[i + 1] == p[i + 1]);
            }
        }
        assert(self.is_derivation(q));
    }

    /// A set that holds the seeds and is closed under transfers holds every
    /// tainted fact.
    pub proof fn lemma_closed_holds_tainted(&self, r: Set<Fact>, t: Fact)
        requires
            forall|s: Fact| #[trigger] self.seed(s) ==> r.contains(s),
            forall|a: Fact, b: Fact| r.contains(a) && #[trigger] self.step(a, b) ==> r.contains(b),
            self.tainted(t),
        ensures
            r.contains(t),
    {
        let p = choose|p: Seq<Fact>| #[trigger] self.is_derivation(p) && p.last() == t;
        self.lemma_closed_prefix(r, p, p.len() - 1);
    }

    proof fn lemma_closed_prefix(&self, r: Set<Fact>, p: Seq<Fact>, i: int)
        requires
            forall|s: Fact| #[trigger] self.seed(s) ==> r.contains(s),
            forall|a: Fact, b: Fact| r.contains(a) && #[trigger] self.step(a, b) ==> r.contains(b),
            self.is_derivation(p),
            0 <= i < p.len(),
        ensures
            r.contains(p[i]),
        decreases i,
    {
        if i > 0 {
            self.lemma_closed_prefix(r, p, i - 1);
            assert(self.step(p[i - 1], p[i]));
        }
    }

    /// A transfer stays inside the program: its target names an existing
    /// function and a statement index up to that function's exit.
    pub proof fn lemma_step_in_program(&self, a: Fact, b: Fact)
        requires
            self.wf(),
            self.step(a, b),
        ensures
            b.0 < self.nf(),
            b.1 <= self.body(b.0 as int).len(),
    {
        reveal(TaintProblem::step);
        let f = a.0 as int;
        let idx = a.1 as int;
        if idx == self.body(f).len() {
            let (caller, ci) = choose|caller: int, ci: int|
                0 <= caller < self.nf() && 0 <= ci < self.body(caller).len()
                && #[trigger] self.return_edge(f, a.2, caller, ci, b);
            assert(self.functions@[caller].id == caller);
        } else {
            let st = self.body(f)[idx];
            match st {
                Stmt::Call { callee, args, .. } => {
                    assert(callee < self.nf());
                },
                _ => {},
            }
        }
    }
}

// ---------------------------------------------------------------------------
// The saturation.

impl TaintProblem {
    /// Statement `ci` of `caller` calls `g`.
    pub open spec fn calls(&self, caller: int, ci: int, g: int) -> bool {
        match self.body(caller)[ci] {
            Stmt::Call { callee, .. } => callee == g,
            _ => false,
        }
    }

    /// `cs[g]` lists exactly the call sites `(caller, statement)` of `g`.
    pub open spec fn callsites_ok(&self, cs: Seq<Seq<(u32, usize)>>) -> bool {
        &&& cs.len() == self.nf()
        &&& forall|g: int, j: int| 0 <= g < cs.len() && 0 <= j < cs[g].len() ==>
            (#[trigger] cs[g][j]).0 < self.nf() && cs[g][j].1 < self.body(cs[g][j].0 as int).len()
            && self.calls(cs[g][j].0 as int, cs[g][j].1 as int, g)
        &&& forall|g: int, c: int, ci: int| 0 <= g < self.nf() && 0 <= c < self.nf() && 0 <= ci < self.body(c).len()
            && #[trigger] self.calls(c, ci, g) ==> cs[g].contains((c as u32, ci as usize))
    }

    /// Every transfer out of `t` lands in `r`.
    pub open spec fn closed_at(&self, r: Set<Fact>, t: Fact) -> bool {
        forall|b: Fact| #[trigger] self.step(t, b) ==> r.contains(b)
    }

    /// The parent links: a seed is its own parent; any other fact was
    /// reached by a transfer from its parent, which is shallower.
    #[verifier::opaque]
    pub open spec fn forest(&self, r: Set<Fact>, p: Map<Fact, Fact>, d: Map<Fact, nat>) -> bool {
        &&& p.dom() == r
        &&& d.dom() == r
        &&& forall|t: Fact| #[trigger] r.contains(t) ==> d[t] < r.len()
        &&& forall|t: Fact| #[trigger] r.contains(t) ==>
            (p[t] == t && self.seed(t)) || (p[t] != t && r.contains(p[t]) && self.step(p[t], t) && d[p[t]] < d[t])
    }

    /// The known facts: finitely many, inside the program, all tainted.
    #[verifier::opaque]
    pub open spec fn inv_facts(&self, r: Set<Fact>) -> bool {
        &&& r.finite()
        &&& forall|t: Fact| #[trigger] r.contains(t) ==>
            t.0 < self.nf() && t.1 <= self.body(t.0 as int).len() && self.tainted(t)
    }

    /// The worklist holds known facts, each once.
    #[verifier::opaque]
    pub open spec fn inv_work(&self, r: Set<Fact>, w: Seq<Fact>) -> bool {
        &&& w.no_duplicates()
        &&& forall|i: int| 0 <= i < w.len() ==> r.contains(#[trigger] w[i])
    }

    /// Every seed is known.
    #[verifier::opaque]
    pub open spec fn inv_seeds(&self, r: Set<Fact>) -> bool {
        forall|s: Fact| #[trigger] self.seed(s) ==> r.contains(s)
    }

    /// Every known fact off the worklist (other than `x`, being processed)
    /// is closed under transfers.
    #[verifier::opaque]
    pub open spec fn inv_closed(&self, r: Set<Fact>, w: Seq<Fact>, x: Option<Fact>) -> bool {
        forall|t: Fact| #[trigger] r.contains(t) && !w.contains(t) && Some(t) != x ==> self.closed_at(r, t)
    }

    /// The saturation state.
    pub open spec fn sat_inv(&self, r: Set<Fact>, w: Seq<Fact>, p: Map<Fact, Fact>, d: Map<Fact, nat>, x: Option<Fact>) -> bool {
        &&& self.inv_facts(r)
        &&& self.inv_work(r, w)
        &&& self.inv_seeds(r)
        &&& self.inv_closed(r, w, x)
        &&& self.forest(r, p, d)
    }

    /// Add `key`, reached from `from`, unless it is already known.
    fn add_fact(
        &self,
        key: Fact,
        from: Fact,
        reachable: &mut FxHashSet<Fact>,
        parent: &mut FxHashMap<Fact, Fact>,
        worklist: &mut Vec<Fact>,
        d: Ghost<Map<Fact, nat>>,
        x: Ghost<Option<Fact>>,
    ) -> (d2: Ghost<Map<Fact, nat>>)
        requires
            self.wf(),
            self.sat_inv(old(reachable)@, old(worklist)@, old(parent)@, d@, x@),
            old(reachable)@.contains(from),
            self.step(from, key),
        ensures
            self.sat_inv(final(reachable)@, final(worklist)@, final(parent)@, d2@, x@),
            final(reachable)@ == old(reachable)@.insert(key),
            final(worklist)@.len() == old(worklist)@.len() + if old(reachable)@.contains(key) { 0int } else { 1int },
            final(reachable)@.len() == old(reachable)@.len() + if old(reachable)@.contains(key) { 0int } else { 1int },
    {
        let ghost r0 = reachable@;
        let ghost w0 = worklist@;
        let ghost p0 = parent@;
        if fact_set_insert(reachable, key) {
            fact_map_insert(parent, key, from);
            worklist.push(key);
            proof {
                self.lemma_add_new(r0, w0, p0, d@, x@, key, from);
            }
            Ghost(d@.insert(key, (d@[from] + 1) as nat))
        } else {
            proof {
                assert(reachable@ =~= r0);
            }
            d
        }
    }

    proof fn lemma_add_new(
        &self,
        r0: Set<Fact>,
        w0: Seq<Fact>,
        p0: Map<Fact, Fact>,
        d0: Map<Fact, nat>,
        x: Option<Fact>,
        key: Fact,
        from: Fact,
    )
        requires
            self.wf(),
            self.sat_inv(r0, w0, p0, d0, x),
            r0.contains(from),
            !r0.contains(key),
            self.step(from, key),
        ensures
            self.sat_inv(r0.insert(key), w0.push(key), p0.insert(key, from),
                d0.insert(key, (d0[from] + 1) as nat), x),
            r0.insert(key).len() == r0.len() + 1,
    {
        reveal(TaintProblem::inv_facts);
        reveal(TaintProblem::inv_seeds);
        self.lemma_add_facts(r0, key, from);
        self.lemma_add_work(r0, w0, key);
        self.lemma_add_closed(r0, w0, x, key);
        self.lemma_add_forest(r0, p0, d0, key, from);
    }

    proof fn lemma_add_facts(&self, r0: Set<Fact>, key: Fact, from: Fact)
        requires
            self.wf(),
            self.inv_facts(r0),
            r0.contains(from),
            self.step(from, key),
        ensures
            self.inv_facts(r0.insert(key)),
    {
        reveal(TaintProblem::inv_facts);
        self.lemma_step_tainted(from, key);
        self.lemma_step_in_program(from, key);
    }

    proof fn lemma_add_work(&self, r0: Set<Fact>, w0: Seq<Fact>, key: Fact)
        requires
            self.inv_work(r0, w0),
            !r0.contains(key),
        ensures
            self.inv_work(r0.insert(key), w0.push(key)),
    {
        reveal(TaintProblem::inv_work);
        let r = r0.insert(key);
        let w = w0.push(key);
        assert forall|a: int, b: int| 0 <= a < w.len() && 0 <= b < w.len() && a != b implies w[a] != w[b] by {
            if b == w.len() - 1 {
                assert(r0.contains(w0[a]));
            } else if a == w.len() - 1 {
                assert(r0.contains(w0[b]));
            }
        }
        assert forall|i: int| 0 <= i < w.len() implies r.contains(#[trigger] w[i]) by {
            if i < w0.len() {
                assert(w[i] == w0[i]);
            }
        }
    }

    proof fn lemma_add_closed(&self, r0: Set<Fact>, w0: Seq<Fact>, x: Option<Fact>, key: Fact)
        requires
            self.inv_closed(r0, w0, x),
        ensures
            self.inv_closed(r0.insert(key), w0.push(key), x),
    {
        reveal(TaintProblem::inv_closed);
        let r = r0.insert(key);
        let w = w0.push(key);
        assert forall|t: Fact| #[trigger] r.contains(t) && !w.contains(t) && Some(t) != x implies
            self.closed_at(r, t) by {
            assert(t != key) by {
                if t == key {
                    assert(w[w.len() - 1] == key);
                }
            }
            if w0.contains(t) {
                let i = choose|i: int| 0 <= i < w0.len() && w0[i] == t;
                assert(w[i] == t);
            }
            assert(self.closed_at(r0, t));
        }
    }

    proof fn lemma_add_forest(&self, r0: Set<Fact>, p0: Map<Fact, Fact>, d0: Map<Fact, nat>, key: Fact, from: Fact)
        requires
            self.forest(r0, p0, d0),
            r0.finite(),
            r0.contains(from),
            !r0.contains(key),
            self.step(from, key),
        ensures
            self.forest(r0.insert(key), p0.insert(key, from), d0.insert(key, (d0[from] + 1) as nat)),
            r0.insert(key).len() == r0.len() + 1,
    {
        reveal(TaintProblem::forest);
        let r = r0.insert(key);
        let p = p0.insert(key, from);
        let d = d0.insert(key, (d0[from] + 1) as nat);
        assert(r.len() == r0.len() + 1);
        assert forall|t: Fact| #[trigger] r.contains(t) implies d[t] < r.len() by {
            if t != key {
                assert(d0[t] < r0.len());
            }
        }
        assert forall|t: Fact| #[trigger] r.contains(t) implies
            (p[t] == t && self.seed(t)) || (p[t] != t && r.contains(p[t])
                && self.step(p[t], t) && d[p[t]] < d[t]) by {
            if t != key {
                assert(r0.contains(t));
            }
        }
        assert(p.dom() =~= r);
        assert(d.dom() =~= r);
    }

    /// The variable of the last `return <var>` of function `func`.
    fn return_var(&self, func: u32) -> (res: Option<Var>)
        requires
            func < self.nf(),
        ensures
            res == last_return(self.body(func as int)),
    {
        let body = &self.functions[func as usize].body;
        let mut i = body.len();
        proof {
            assert(body@.take(i as int) =~= body@);
        }
        while i > 0
            invariant
                *body == self.functions@[func as int].body,
                i <= body@.len(),
                last_return(body@) == last_return(body@.take(i as int)),
            decreases i,
        {
            proof {
                assert(body@.take(i as int).drop_last() =~= body@.take(i - 1));
            }
            i = i - 1;
            match &body[i] {
                Stmt::Return { val: Operand::Var(v) } => {
                    return Some(*v);
                },
                _ => {},
            }
        }
        None
    }

    /// Group the call sites by callee.
    fn build_callsites(&self) -> (cs: Vec<Vec<(u32, usize)>>)
        requires
            self.wf(),
        ensures
            self.callsites_ok(cs@.map_values(|v: Vec<(u32, usize)>| v@)),
    {
        let nf = self.functions.len();
        let mut cs: Vec<Vec<(u32, usize)>> = Vec::new();
        let mut g: usize = 0;
        while g < nf
            invariant
                nf == self.nf(),
                g <= nf,
                cs@.len() == g,
                forall|k: int| 0 <= k < g ==> (#[trigger] cs@[k])@.len() == 0,
            decreases nf - g,
        {
            cs.push(Vec::new());
            g = g + 1;
        }
        let mut f: usize = 0;
        while f < nf
            invariant
                self.wf(),
                nf == self.nf(),
                f <= nf,
                cs@.len() == nf,
                forall|h: int, j: int| 0 <= h < nf && 0 <= j < cs@[h]@.len() ==>
                    (#[trigger] cs@[h]@[j]).0 < f && cs@[h]@[j].1 < self.body(cs@[h]@[j].0 as int).len()
                    && self.calls(cs@[h]@[j].0 as int, cs@[h]@[j].1 as int, h),
                forall|h: int, c: int, ci: int| 0 <= h < nf && 0 <= c < f && 0 <= ci < self.body(c).len()
                    && #[trigger] self.calls(c, ci, h) ==> cs@[h]@.contains((c as u32, ci as usize)),
            decreases nf - f,
        {
            let body = &self.functions[f].body;
            let fid = self.functions[f].id;
            let mut i: usize = 0;
            while i < body.len()
                invariant
                    self.wf(),
                    nf == self.nf(),
                    f < nf,
                    *body == self.functions@[f as int].body,
                    fid == f,
                    i <= body@.len(),
                    cs@.len() == nf,
                    forall|h: int, j: int| 0 <= h < nf && 0 <= j < cs@[h]@.len() ==>
                        (#[trigger] cs@[h]@[j]).0 <= f && cs@[h]@[j].1 < self.body(cs@[h]@[j].0 as int).len()
                        && self.calls(cs@[h]@[j].0 as int, cs@[h]@[j].1 as int, h),
                    forall|h: int, c: int, ci: int| 0 <= h < nf && 0 <= c < f && 0 <= ci < self.body(c).len()
                        && #[trigger] self.calls(c, ci, h) ==> cs@[h]@.contains((c as u32, ci as usize)),
                    forall|h: int, ci: int| 0 <= h < nf && 0 <= ci < i
                        && #[trigger] self.calls(f as int, ci, h) ==> cs@[h]@.contains((f as u32, ci as usize)),
                decreases body@.len() - i,
            {
                match &body[i] {
                    Stmt::Call { callee, .. } => {
                        let h = *callee as usize;
                        let ghost before = cs@;
                        proof {
                            assert(self.body(f as int)[i as int] == body@[i as int]);
                        }
                        cs[h].push((fid, i));
                        proof {
                            assert forall|h2: int, j: int| 0 <= h2 < nf && 0 <= j < cs@[h2]@.len() implies
                                (#[trigger] cs@[h2]@[j]).0 <= f && cs@[h2]@[j].1 < self.body(cs@[h2]@[j].0 as int).len()
                                && self.calls(cs@[h2]@[j].0 as int, cs@[h2]@[j].1 as int, h2) by {
                                if h2 != h || j < before[h2]@.len() {
                                    assert(cs@[h2]@[j] == before[h2]@[j]);
                                }
                            }
                            assert forall|h2: int, c: int, ci: int| 0 <= h2 < nf && 0 <= c < f && 0 <= ci < self.body(c).len()
                                && #[trigger] self.calls(c, ci, h2) implies cs@[h2]@.contains((c as u32, ci as usize)) by {
                                let k = choose|k: int| 0 <= k < before[h2]@.len() && before[h2]@[k] == (c as u32, ci as usize);
                                assert(cs@[h2]@[k] == before[h2]@[k]);
                            }
                            assert forall|h2: int, ci: int| 0 <= h2 < nf && 0 <= ci < i + 1
                                && #[trigger] self.calls(f as int, ci, h2) implies cs@[h2]@.contains((f as u32, ci as usize)) by {
                                if ci < i {
                                    let k = choose|k: int| 0 <= k < before[h2]@.len() && before[h2]@[k] == (f as u32, ci as usize);
                                    assert(cs@[h2]@[k] == before[h2]@[k]);
                                } else {
                                    assert(cs@[h2]@[cs@[h2]@.len() - 1] == (f as u32, ci as usize));
                                }
                            }
                        }
                    },
                    _ => {
                        proof {
                            assert(self.body(f as int)[i as int] == body@[i as int]);
                        }
                    },
                }
                i = i + 1;
            }
            f = f + 1;
        }
        proof {
            let v = cs@.map_values(|v: Vec<(u32, usize)>| v@);
            assert forall|g2: int, j: int| 0 <= g2 < v.len() && 0 <= j < v[g2].len() implies
                (#[trigger] v[g2][j]).0 < self.nf() && v[g2][j].1 < self.body(v[g2][j].0 as int).len()
                && self.calls(v[g2][j].0 as int, v[g2][j].1 as int, g2) by {
                assert(v[g2] == cs@[g2]@);
            }
            assert forall|g2: int, c: int, ci: int| 0 <= g2 < self.nf() && 0 <= c < self.nf() && 0 <= ci < self.body(c).len()
                && #[trigger] self.calls(c, ci, g2) implies v[g2].contains((c as u32, ci as usize)) by {
                assert(v[g2] == cs@[g2]@);
            }
        }
        cs
    }
}

impl TaintProblem {
    proof fn lemma_pop(&self, r: Set<Fact>, w: Seq<Fact>, p: Map<Fact, Fact>, d: Map<Fact, nat>)
        requires
            self.sat_inv(r, w, p, d, None),
            w.len() > 0,
        ensures
            self.sat_inv(r, w.drop_last(), p, d, Some(w.last())),
            r.contains(w.last()),
    {
        reveal(TaintProblem::inv_work);
        reveal(TaintProblem::inv_closed);
        let w2 = w.drop_last();
        assert(r.contains(w[w.len() - 1]));
        assert forall|t: Fact| #[trigger] r.contains(t) && !w2.contains(t) && Some(t) != Some(w.last()) implies
            self.closed_at(r, t) by {
            if w.contains(t) {
                let i = choose|i: int| 0 <= i < w.len() && w[i] == t;
                if i < w.len() - 1 {
                    assert(w2[i] == t);
                }
            }
        }
        assert forall|i: int| 0 <= i < w2.len() implies r.contains(#[trigger] w2[i]) by {
            assert(w2[i] == w[i]);
        }
    }

    proof fn lemma_done(&self, r: Set<Fact>, w: Seq<Fact>, p: Map<Fact, Fact>, d: Map<Fact, nat>, a: Fact)
        requires
            self.sat_inv(r, w, p, d, Some(a)),
            self.closed_at(r, a),
        ensures
            self.sat_inv(r, w, p, d, None),
    {
        reveal(TaintProblem::inv_closed);
    }

    /// Push the taint of the popped fact `a` one transfer further.
    fn process(
        &self,
        a: Fact,
        reachable: &mut FxHashSet<Fact>,
        parent: &mut FxHashMap<Fact, Fact>,
        worklist: &mut Vec<Fact>,
        callsites: &Vec<Vec<(u32, usize)>>,
        d: Ghost<Map<Fact, nat>>,
    ) -> (d2: Ghost<Map<Fact, nat>>)
        requires
            self.wf(),
            self.callsites_ok(callsites@.map_values(|v: Vec<(u32, usize)>| v@)),
            self.sat_inv(old(reachable)@, old(worklist)@, old(parent)@, d@, Some(a)),
            old(reachable)@.contains(a),
        ensures
            self.sat_inv(final(reachable)@, final(worklist)@, final(parent)@, d2@, Some(a)),
            self.closed_at(final(reachable)@, a),
            old(reachable)@.subset_of(final(reachable)@),
            final(reachable)@.len() - old(reachable)@.len() == final(worklist)@.len() - old(worklist)@.len(),
    {
        let ghost r0 = reachable@;
        let ghost w0 = worklist@;
        let (func, idx, var) = a;
        proof {
            reveal(TaintProblem::inv_facts);
            assert(func < self.nf() && idx <= self.body(func as int).len());
        }
        let f = &self.functions[func as usize];
        let mut dd = d;
        if idx == f.body.len() {
            let sites = &callsites[func as usize];
            let ghost cs = callsites@.map_values(|v: Vec<(u32, usize)>| v@);
            proof {
                assert(cs[func as int] == sites@);
            }
            let mut k: usize = 0;
            while k < sites.len()
                invariant
                    self.wf(),
                    self.callsites_ok(cs),
                    cs[func as int] == sites@,
                    func < self.nf(),
                    idx == self.body(func as int).len(),
                    a == (func, idx, var),
                    k <= sites@.len(),
                    self.sat_inv(reachable@, worklist@, parent@, dd@, Some(a)),
                    reachable@.contains(a),
                    r0.subset_of(reachable@),
                    reachable@.len() - r0.len() == worklist@.len() - w0.len(),
                    forall|j: int, b: Fact| 0 <= j < k && #[trigger] self.return_edge(func as int, var, sites@[j].0 as int, sites@[j].1 as int, b)
                        ==> reachable@.contains(b),
                decreases sites@.len() - k,
            {
                let (caller, call_idx) = sites[k];
                proof {
                    assert(cs[func as int][k as int] == (caller, call_idx));
                }
                let cf = &self.functions[caller as usize];
                let n_body = cf.body.len();
                let ghost rk = reachable@;
                proof {
                    assert(call_idx < n_body);
                    assert(self.calls(caller as int, call_idx as int, func as int));
                }
                match &cf.body[call_idx] {
                    Stmt::Call { dst: Some(dst), .. } => {
                        let rv = self.return_var(func);
                        match rv {
                            Some(ret) => {
                                if var == ret {
                                    let key = (caller, call_idx + 1, *dst);
                                    proof {
                                        reveal(TaintProblem::step);
                                        assert(self.return_edge(func as int, var, caller as int, call_idx as int, key));
                                        assert(self.step(a, key));
                                    }
                                    dd = self.add_fact(key, a, reachable, parent, worklist, dd, Ghost(Some(a)));
                                }
                            },
                            None => {},
                        }
                    },
                    _ => {},
                }
                proof {
                    assert forall|j: int, b: Fact| 0 <= j < k + 1 && #[trigger] self.return_edge(func as int, var, sites@[j].0 as int, sites@[j].1 as int, b)
                        implies reachable@.contains(b) by {
                        if j < k {
                            assert(rk.contains(b));
                        }
                    }
                }
                k = k + 1;
            }
            proof {
                reveal(TaintProblem::step);
                assert forall|b: Fact| #[trigger] self.step(a, b) implies reachable@.contains(b) by {
                    let (caller, ci) = choose|caller: int, ci: int|
                        0 <= caller < self.nf() && 0 <= ci < self.body(caller).len()
                        && #[trigger] self.return_edge(func as int, var, caller, ci, b);
                    assert(self.calls(caller, ci, func as int));
                    assert(self.functions@[caller].id == caller);
                    assert(self.functions@[caller].body.len() == self.body(caller).len());
                    assert(caller as u32 as int == caller && ci as usize as int == ci);
                    assert(cs[func as int].contains((caller as u32, ci as usize)));
                    let j = choose|j: int| 0 <= j < cs[func as int].len() && cs[func as int][j] == (caller as u32, ci as usize);
                    assert(self.return_edge(func as int, var, sites@[j].0 as int, sites@[j].1 as int, b));
                }
            }
            return dd;
        }
        let next = idx + 1;
        let stmt = &f.body[idx];
        proof {
            assert(*stmt == self.body(func as int)[idx as int]);
            reveal(TaintProblem::step);
        }
        match stmt {
            Stmt::Assign { dst, src } => {
                if var != *dst {
                    dd = self.add_fact((func, next, var), a, reachable, parent, worklist, dd, Ghost(Some(a)));
                }
                let ghost r1 = reachable@;
                match src {
                    Operand::Var(sv) => {
                        if var == *sv {
                            dd = self.add_fact((func, next, *dst), a, reachable, parent, worklist, dd, Ghost(Some(a)));
                        }
                    },
                    Operand::Const => {},
                }
                proof {
                    assert forall|b: Fact| #[trigger] self.step(a, b) implies reachable@.contains(b) by {
                        if b == (func, next, var) && var != *dst {
                            assert(r1.contains(b));
                        }
                    }
                }
            },
            Stmt::Sanitize { var: v } => {
                if var != *v {
                    dd = self.add_fact((func, next, var), a, reachable, parent, worklist, dd, Ghost(Some(a)));
                }
            },
            Stmt::Sink { .. } => {
                dd = self.add_fact((func, next, var), a, reachable, parent, worklist, dd, Ghost(Some(a)));
            },
            Stmt::Nop => {
                dd = self.add_fact((func, next, var), a, reachable, parent, worklist, dd, Ghost(Some(a)));
            },
            Stmt::Return { val } => {
                dd = self.add_fact((func, next, var), a, reachable, parent, worklist, dd, Ghost(Some(a)));
                let ghost r1 = reachable@;
                match val {
                    Operand::Var(rv) => {
                        if var == *rv {
                            let exit = f.body.len();
                            dd = self.add_fact((func, exit, *rv), a, reachable, parent, worklist, dd, Ghost(Some(a)));
                        }
                    },
                    Operand::Const => {},
                }
                proof {
                    assert forall|b: Fact| #[trigger] self.step(a, b) implies reachable@.contains(b) by {
                        if b == (func, next, var) {
                            assert(r1.contains(b));
                        }
                    }
                }
            },
            Stmt::Call { callee, args, .. } => {
                let cf = &self.functions[*callee as usize];
                let mut i: usize = 0;
                while i < args.len()
                    invariant
                        self.wf(),
                        *cf == self.functions@[*callee as int],
                        *callee < self.nf(),
                        i <= args@.len(),
                        self.body(func as int)[idx as int] == *stmt,
                        *stmt matches Stmt::Call { args: a2, callee: c2, .. } && a2@ == args@ && c2 == *callee,
                        a == (func, idx, var),
                        func < self.nf(),
                        idx < self.body(func as int).len(),
                        self.sat_inv(reachable@, worklist@, parent@, dd@, Some(a)),
                        reachable@.contains(a),
                        r0.subset_of(reachable@),
                        reachable@.len() - r0.len() == worklist@.len() - w0.len(),
                        forall|j: int| 0 <= j < i && #[trigger] args@[j] == Operand::Var(var) && j < self.params(*callee as int).len()
                            ==> reachable@.contains((*callee, 0usize, self.params(*callee as int)[j])),
                    decreases args@.len() - i,
                {
                    let ghost ri = reachable@;
                    match &args[i] {
                        Operand::Var(av) => {
                            if var == *av {
                                if i < cf.params.len() {
                                    let param = cf.params[i];
                                    proof {
                                        reveal(TaintProblem::step);
                                        assert(args@[i as int] == Operand::Var(var));
                                        assert(self.step(a, (*callee, 0usize, param)));
                                    }
                                    dd = self.add_fact((*callee, 0, param), a, reachable, parent, worklist, dd, Ghost(Some(a)));
                                }
                            }
                        },
                        Operand::Const => {},
                    }
                    proof {
                        assert forall|j: int| 0 <= j < i + 1 && #[trigger] args@[j] == Operand::Var(var) && j < self.params(*callee as int).len()
                            implies reachable@.contains((*callee, 0usize, self.params(*callee as int)[j])) by {
                            if j < i {
                                assert(ri.contains((*callee, 0usize, self.params(*callee as int)[j])));
                            }
                        }
                    }
                    i = i + 1;
                }
                let ghost r1 = reachable@;
                proof {
                    reveal(TaintProblem::step);
                }
                dd = self.add_fact((func, next, var), a, reachable, parent, worklist, dd, Ghost(Some(a)));
                proof {
                    reveal(TaintProblem::step);
                    assert forall|b: Fact| #[trigger] self.step(a, b) implies reachable@.contains(b) by {
                        if b != (func, next, var) {
                            let j = choose|j: int| 0 <= j < args@.len() && #[trigger] args@[j] == Operand::Var(var)
                                && j < self.params(*callee as int).len()
                                && b == (*callee, 0usize, self.params(*callee as int)[j]);
                            assert(r1.contains(b));
                        }
                    }
                }
            },
        }
        dd
    }
}

/// Where the parent links lead from `t`: its seed.
pub open spec fn root_of(p: Map<Fact, Fact>, d: Map<Fact, nat>, t: Fact) -> Fact
    decreases d[t],
{
    if p.dom().contains(t) && p[t] != t && d.dom().contains(p[t]) && d[p[t]] < d[t] {
        root_of(p, d, p[t])
    } else {
        t
    }
}

impl TaintProblem {
    /// Some derivation from the seed of `src` ends in `t`.
    pub open spec fn derives_from(&self, src: Source, t: Fact) -> bool {
        exists|p: Seq<Fact>| #[trigger] self.is_derivation(p) && p[0] == (src.func, 0usize, src.var) && p.last() == t
    }

    proof fn lemma_r_bound(&self, r: Set<Fact>)
        requires
            self.inv_facts(r),
        ensures
            r.finite(),
            r.len() <= self.nf() * fact_space(),
            forall|t: Fact| #[trigger] r.contains(t) ==> self.tainted(t) && t.0 < self.nf()
                && t.1 <= self.body(t.0 as int).len(),
    {
        reveal(TaintProblem::inv_facts);
        lemma_fact_bound(r, self.nf());
    }

    /// The parent chain from `t` is a derivation from its root, a seed.
    proof fn lemma_root_derives(&self, r: Set<Fact>, p: Map<Fact, Fact>, d: Map<Fact, nat>, t: Fact)
        requires
            self.forest(r, p, d),
            r.contains(t),
        ensures
            r.contains(root_of(p, d, t)),
            p[root_of(p, d, t)] == root_of(p, d, t),
            self.seed(root_of(p, d, t)),
            exists|q: Seq<Fact>| #[trigger] self.is_derivation(q) && q[0] == root_of(p, d, t) && q.last() == t,
        decreases d[t],
    {
        reveal(TaintProblem::forest);
        if p[t] != t {
            let u = p[t];
            self.lemma_root_derives(r, p, d, u);
            let q = choose|q: Seq<Fact>| #[trigger] self.is_derivation(q) && q[0] == root_of(p, d, u) && q.last() == u;
            let q2 = q.push(t);
            assert forall|i: int| 0 <= i < q2.len() - 1 implies self.step(#[trigger] q2[i], q2[i + 1]) by {
                if i < q.len() - 1 {
                    assert(q2[i] == q[i] && q2[i + 1] == q[i + 1]);
                }
            }
            assert(self.is_derivation(q2));
        } else {
            let q = seq![t];
            assert(self.is_derivation(q));
        }
    }

    /// Saturate: the set of facts reachable from the sources, with the
    /// parent link of each.
    fn saturate(&self) -> (res: (FxHashSet<Fact>, FxHashMap<Fact, Fact>, Ghost<Map<Fact, nat>>))
        requires
            self.wf(),
        ensures
            res.0@ == self.tainted_set(),
            res.0@.finite(),
            self.forest(res.0@, res.1@, res.2@),
    {
        let mut reachable = fact_set_new();
        let mut parent = fact_map_new();
        let mut worklist: Vec<Fact> = Vec::new();
        let mut dd: Ghost<Map<Fact, nat>> = Ghost(Map::empty());
        proof {
            reveal(TaintProblem::inv_facts);
            reveal(TaintProblem::inv_work);
            reveal(TaintProblem::inv_closed);
            reveal(TaintProblem::forest);
            assert(parent@.dom() =~= reachable@);
            assert(dd@.dom() =~= reachable@);
        }
        let mut k: usize = 0;
        while k < self.sources.len()
            invariant
                self.wf(),
                k <= self.sources@.len(),
                self.inv_facts(reachable@),
                self.inv_work(reachable@, worklist@),
                self.inv_closed(reachable@, worklist@, None),
                self.forest(reachable@, parent@, dd@),
                forall|t: Fact| #[trigger] reachable@.contains(t) ==> worklist@.contains(t),
                forall|j: int| 0 <= j < k ==> reachable@.contains(
                    (#[trigger] self.sources@[j].func, 0usize, self.sources@[j].var)),
            decreases self.sources@.len() - k,
        {
            let s = self.sources[k];
            let key: Fact = (s.func, 0, s.var);
            let ghost r0 = reachable@;
            let ghost w0 = worklist@;
            let ghost p0 = parent@;
            let ghost d0 = dd@;
            proof {
                assert(self.seed(key));
                self.lemma_seed_tainted(key);
            }
            if fact_set_insert(&mut reachable, key) {
                worklist.push(key);
                fact_map_insert(&mut parent, key, key);
                dd = Ghost(d0.insert(key, 0nat));
                proof {
                    self.lemma_add_seed(r0, w0, p0, d0, key);
                }
            } else {
                proof {
                    assert(reachable@ =~= r0);
                }
            }
            proof {
                assert forall|j: int| 0 <= j < k + 1 implies reachable@.contains(
                    (#[trigger] self.sources@[j].func, 0usize, self.sources@[j].var)) by {
                    if j < k {
                        assert(r0.contains((self.sources@[j].func, 0usize, self.sources@[j].var)));
                    }
                }
            }
            k = k + 1;
        }
        proof {
            reveal(TaintProblem::inv_seeds);
            assert forall|s: Fact| #[trigger] self.seed(s) implies reachable@.contains(s) by {
                let j = choose|j: int| 0 <= j < self.sources@.len()
                    && s == (#[trigger] self.sources@[j].func, 0usize, self.sources@[j].var);
            }
        }
        let callsites = self.build_callsites();
        proof {
            self.lemma_r_bound(reachable@);
        }
        while worklist.len() > 0
            invariant
                self.wf(),
                self.callsites_ok(callsites@.map_values(|v: Vec<(u32, usize)>| v@)),
                self.sat_inv(reachable@, worklist@, parent@, dd@, None),
                reachable@.len() <= self.nf() * fact_space(),
            decreases 2 * (self.nf() * fact_space() - reachable@.len()) + worklist@.len(),
        {
            proof {
                self.lemma_pop(reachable@, worklist@, parent@, dd@);
            }
            let ghost w_before = worklist@;
            let ghost m_before = 2 * (self.nf() * fact_space() - reachable@.len()) + worklist@.len();
            let a = worklist.pop().unwrap();
            let ghost r1 = reachable@;
            let ghost w1 = worklist@;
            dd = self.process(a, &mut reachable, &mut parent, &mut worklist, &callsites, dd);
            proof {
                self.lemma_done(reachable@, worklist@, parent@, dd@, a);
                self.lemma_r_bound(reachable@);
                assert(w1.len() == w_before.len() - 1);
                lemma_len_subset(r1, reachable@);
                assert(r1.len() == reachable@.len() - (worklist@.len() - w1.len()));
                assert(2 * (self.nf() * fact_space() - reachable@.len()) + worklist@.len() < m_before);
            }
        }
        proof {
            reveal(TaintProblem::inv_closed);
            reveal(TaintProblem::inv_seeds);
            self.lemma_r_bound(reachable@);
            let r = reachable@;
            assert forall|a: Fact, b: Fact| r.contains(a) && #[trigger] self.step(a, b) implies r.contains(b) by {
                assert(!worklist@.contains(a));
                assert(self.closed_at(r, a));
            }
            assert forall|t: Fact| self.tainted(t) implies r.contains(t) by {
                self.lemma_closed_holds_tainted(r, t);
            }
            assert(r =~= self.tainted_set());
        }
        (reachable, parent, dd)
    }

    proof fn lemma_add_seed(&self, r0: Set<Fact>, w0: Seq<Fact>, p0: Map<Fact, Fact>, d0: Map<Fact, nat>, key: Fact)
        requires
            self.wf(),
            self.inv_facts(r0),
            self.inv_work(r0, w0),
            self.inv_closed(r0, w0, None),
            self.forest(r0, p0, d0),
            forall|t: Fact| #[trigger] r0.contains(t) ==> w0.contains(t),
            !r0.contains(key),
            self.seed(key),
        ensures
            self.inv_facts(r0.insert(key)),
            self.inv_work(r0.insert(key), w0.push(key)),
            self.inv_closed(r0.insert(key), w0.push(key), None),
            self.forest(r0.insert(key), p0.insert(key, key), d0.insert(key, 0nat)),
            forall|t: Fact| #[trigger] r0.insert(key).contains(t) ==> w0.push(key).contains(t),
    {
        reveal(TaintProblem::inv_facts);
        reveal(TaintProblem::inv_closed);
        reveal(TaintProblem::forest);
        self.lemma_seed_tainted(key);
        self.lemma_add_work(r0, w0, key);
        let r = r0.insert(key);
        let w = w0.push(key);
        let p = p0.insert(key, key);
        let d = d0.insert(key, 0nat);
        let j = choose|j: int| 0 <= j < self.sources@.len()
            && key == (#[trigger] self.sources@[j].func, 0usize, self.sources@[j].var);
        assert(key.0 < self.nf());
        assert(r.len() == r0.len() + 1);
        assert forall|t: Fact| #[trigger] r.contains(t) implies w.contains(t) by {
            if t == key {
                assert(w[w.len() - 1] == key);
            } else {
                let i = choose|i: int| 0 <= i < w0.len() && w0[i] == t;
                assert(w[i] == t);
            }
        }
        assert forall|t: Fact| #[trigger] r.contains(t) implies d[t] < r.len() by {
            if t != key {
                assert(d0[t] < r0.len());
            }
        }
        assert forall|t: Fact| #[trigger] r.contains(t) implies
            (p[t] == t && self.seed(t)) || (p[t] != t && r.contains(p[t]) && self.step(p[t], t) && d[p[t]] < d[t]) by {
            if t != key {
                assert(r0.contains(t));
            }
        }
        assert(p.dom() =~= r);
        assert(d.dom() =~= r);
    }
}

impl TaintProblem {
    /// The variable a sink reads, when it reads one.
    pub open spec fn sink_var(&self, s: SinkSite) -> Option<Var> {
        match self.body(s.func as int)[s.stmt as int] {
            Stmt::Sink { val: Operand::Var(sv) } => Some(sv),
            _ => None,
        }
    }

    /// `idx[k]` is the position in `sinks` of the sink of flow `k`: the flows
    /// follow the order of `sinks`, and (within the walk bound) every sink
    /// that is hit has its flow.
    pub open spec fn sink_order(&self, flows: Seq<Flow>, idx: Seq<int>) -> bool {
        &&& idx.len() == flows.len()
        &&& forall|a: int, b: int| 0 <= a < b < idx.len() ==> #[trigger] idx[a] < #[trigger] idx[b]
        &&& forall|k: int| 0 <= k < idx.len() ==> 0 <= #[trigger] idx[k] < self.sinks@.len()
            && self.sinks@[idx[k]] == flows[k].sink
        &&& self.tainted_set().len() <= 100_000 ==> forall|j: int| 0 <= j < self.sinks@.len()
            && #[trigger] self.sink_hit(self.sinks@[j]) ==> idx.contains(j)
    }

    /// What `solve` reports: each flow ends at a sink that is hit, starts at a
    /// listed source, and carries a witness of positions that a chain of
    /// transfers follows to the sink's fact (from the source's seed while the
    /// taint set stays within 10 000 facts, and derived from that source within
    /// 100 000); the flows follow the order of `sinks`.
    pub open spec fn flows_ok(&self, flows: Seq<Flow>) -> bool {
        &&& forall|k: int| 0 <= k < flows.len() ==> {
            let fl = #[trigger] flows[k];
            &&& self.sink_hit(fl.sink)
            &&& exists|j: int| 0 <= j < self.sources@.len() && self.sources@[j] == fl.source
            &&& fl.witness@.len() >= 1
            &&& fl.witness@.last() == (fl.sink.func, fl.sink.stmt)
            &&& exists|facts: Seq<Fact>| self.witness_chain(fl.witness@, facts)
                && facts.last() == (fl.sink.func, fl.sink.stmt, self.sink_var(fl.sink)->0)
                && (self.tainted_set().len() <= 10_000 ==> facts[0] == (fl.source.func, 0usize, fl.source.var))
            &&& self.tainted_set().len() <= 100_000 ==>
                self.derives_from(fl.source, (fl.sink.func, fl.sink.stmt, self.sink_var(fl.sink)->0))
        }
        &&& exists|idx: Seq<int>| #[trigger] self.sink_order(flows, idx)
    }

    /// `facts` spells out the witness `w`: the same positions, each fact a
    /// transfer from the one before.
    pub open spec fn witness_chain(&self, w: Seq<(Func, usize)>, facts: Seq<Fact>) -> bool {
        &&& facts.len() == w.len()
        &&& w.len() >= 1
        &&& forall|i: int| 0 <= i < w.len() ==> #[trigger] w[i] == (facts[i].0, facts[i].1)
        &&& forall|i: int| 0 <= i < facts.len() - 1 ==> self.step(#[trigger] facts[i], facts[i + 1])
    }

    /// Walk the parent links from `(func, stmt, var)` to the seed (at most
    /// 100 000 steps) and return the first source seeding there.
    fn source_from_root(
        &self,
        parent: &FxHashMap<Fact, Fact>,
        func: Func,
        stmt: usize,
        var: Var,
        r: Ghost<Set<Fact>>,
        d: Ghost<Map<Fact, nat>>,
    ) -> (res: Option<Source>)
        requires
            self.forest(r@, parent@, d@),
            r@.contains((func, stmt, var)),
        ensures
            res matches Some(s) ==> exists|k: int| 0 <= k < self.sources@.len() && self.sources@[k] == s,
            d@[(func, stmt, var)] < 100_000 ==> (res matches Some(s)
                && root_of(parent@, d@, (func, stmt, var)) == (s.func, 0usize, s.var)),
    {
        let ghost t: Fact = (func, stmt, var);
        let mut cur: Fact = (func, stmt, var);
        let mut n: usize = 0;
        let mut at_root = false;
        proof {
            reveal(TaintProblem::forest);
        }
        while n < 100_000 && !at_root
            invariant
                self.forest(r@, parent@, d@),
                r@.contains(cur),
                r@.contains(t),
                root_of(parent@, d@, cur) == root_of(parent@, d@, t),
                !at_root ==> d@[cur] + n <= d@[t],
                at_root ==> parent@[cur] == cur,
            decreases 100_000 - n,
        {
            proof {
                reveal(TaintProblem::forest);
            }
            match fact_map_get(parent, cur) {
                Some(p) => {
                    if !fact_eq(p, cur) {
                        cur = p;
                    } else {
                        at_root = true;
                    }
                },
                None => {
                    at_root = true;
                },
            }
            n = n + 1;
        }
        let ghost root_ok = d@[t] < 100_000;
        proof {
            reveal(TaintProblem::forest);
            if root_ok {
                assert(at_root);
                self.lemma_root_derives(r@, parent@, d@, t);
                assert(root_of(parent@, d@, cur) == cur);
            }
        }
        let mut k: usize = 0;
        while k < self.sources.len()
            invariant
                t == (func, stmt, var),
                root_ok == (d@[t] < 100_000),
                root_ok ==> cur == root_of(parent@, d@, t) && self.seed(cur),
                k <= self.sources@.len(),
                forall|j: int| 0 <= j < k ==> !((#[trigger] self.sources@[j]).func == cur.0 && self.sources@[j].var == cur.2),
            decreases self.sources@.len() - k,
        {
            let s = self.sources[k];
            if s.func == cur.0 && s.var == cur.2 {
                proof {
                    if root_ok {
                        let j = choose|j: int| 0 <= j < self.sources@.len()
                            && cur == (#[trigger] self.sources@[j].func, 0usize, self.sources@[j].var);
                        assert(cur == (s.func, 0usize, s.var));
                        assert(root_of(parent@, d@, t) == (s.func, 0usize, s.var));
                        assert(t == (func, stmt, var));
                    }
                }
                return Some(s);
            }
            k = k + 1;
        }
        proof {
            if root_ok {
                let j = choose|j: int| 0 <= j < self.sources@.len()
                    && cur == (#[trigger] self.sources@[j].func, 0usize, self.sources@[j].var);
                assert(!(self.sources@[j].func == cur.0 && self.sources@[j].var == cur.2));
            }
        }
        None
    }

    /// The positions on the parent chain from the seed to `(func, stmt,
    /// var)`, at most 10 000 links back.
    fn reconstruct(
        &self,
        parent: &FxHashMap<Fact, Fact>,
        func: Func,
        stmt: usize,
        var: Var,
        r: Ghost<Set<Fact>>,
        d: Ghost<Map<Fact, nat>>,
    ) -> (path: Vec<(Func, usize)>)
        requires
            self.forest(r@, parent@, d@),
            r@.contains((func, stmt, var)),
        ensures
            path@.len() >= 1,
            path@.last() == (func, stmt),
            exists|facts: Seq<Fact>| self.witness_chain(path@, facts) && facts.last() == (func, stmt, var)
                && (d@[(func, stmt, var)] < 10_000 ==> facts[0] == root_of(parent@, d@, (func, stmt, var))),
    {
        let ghost t: Fact = (func, stmt, var);
        let mut back: Vec<(Func, usize)> = Vec::new();
        back.push((func, stmt));
        let ghost mut fb: Seq<Fact> = seq![t];
        let mut cur: Fact = (func, stmt, var);
        let mut n: usize = 0;
        let mut at_root = false;
        while n < 10_000 && !at_root
            invariant
                self.forest(r@, parent@, d@),
                r@.contains(cur),
                r@.contains(t),
                root_of(parent@, d@, cur) == root_of(parent@, d@, t),
                !at_root ==> d@[cur] + n <= d@[t],
                at_root ==> parent@[cur] == cur,
                fb.len() == back@.len(),
                fb.len() >= 1,
                fb[0] == t,
                fb.last() == cur,
                back@[0] == (func, stmt),
                forall|i: int| 0 <= i < fb.len() ==> #[trigger] back@[i] == (fb[i].0, fb[i].1),
                forall|i: int| 0 <= i < fb.len() - 1 ==> self.step(#[trigger] fb[i + 1], fb[i]),
            decreases 10_000 - n,
        {
            proof {
                reveal(TaintProblem::forest);
            }
            match fact_map_get(parent, cur) {
                Some(p) => {
                    if !fact_eq(p, cur) {
                        back.push((p.0, p.1));
                        proof {
                            let old_fb = fb;
                            fb = fb.push(p);
                            assert forall|i: int| 0 <= i < fb.len() - 1 implies self.step(#[trigger] fb[i + 1], fb[i]) by {
                                if i < old_fb.len() - 1 {
                                    assert(fb[i + 1] == old_fb[i + 1] && fb[i] == old_fb[i]);
                                }
                            }
                        }
                        cur = p;
                    } else {
                        at_root = true;
                    }
                },
                None => {
                    at_root = true;
                },
            }
            n = n + 1;
        }
        let mut path: Vec<(Func, usize)> = Vec::new();
        let mut i = back.len();
        while i > 0
            invariant
                i <= back@.len(),
                path@.len() == back@.len() - i,
                forall|j: int| 0 <= j < path@.len() ==> #[trigger] path@[j] == back@[back@.len() - 1 - j],
            decreases i,
        {
            i = i - 1;
            path.push(back[i]);
        }
        proof {
            reveal(TaintProblem::forest);
            let facts = fb.reverse();
            assert(self.witness_chain(path@, facts)) by {
                assert forall|j: int| 0 <= j < path@.len() implies #[trigger] path@[j] == (facts[j].0, facts[j].1) by {
                    assert(path@[j] == back@[back@.len() - 1 - j]);
                }
                assert forall|j: int| 0 <= j < facts.len() - 1 implies self.step(#[trigger] facts[j], facts[j + 1]) by {
                    let k = fb.len() - 2 - j;
                    assert(facts[j] == fb[k + 1] && facts[j + 1] == fb[k]);
                }
            }
            assert(path@.last() == back@[0]);
            assert(facts.last() == t);
            if d@[t] < 10_000 {
                assert(at_root);
                assert(root_of(parent@, d@, cur) == cur);
                assert(facts[0] == cur);
            }
            assert(self.witness_chain(path@, facts) && facts.last() == (func, stmt, var)
                && (d@[(func, stmt, var)] < 10_000 ==> facts[0] == root_of(parent@, d@, (func, stmt, var))));
        }
        path
    }

    /// Solve: every confirmed source→sink flow, in the order of `sinks`.
    ///
    /// A sink reports when its variable is tainted there; the flow names the
    /// source at the end of the parent chain (followed at most 100 000 links)
    /// and a witness of positions (at most 10 000 links back). Within those
    /// bounds the report is exact: every tainted sink is reported, from a
    /// source that really reaches it, with a witness that starts at that
    /// source.
    pub fn solve(&self) -> (flows: Vec<Flow>)
        requires
            self.wf(),
        ensures
            self.flows_ok(flows@),
    {
        let (reachable, parent, dd) = self.saturate();
        let ghost r = reachable@;
        let mut flows: Vec<Flow> = Vec::new();
        let ghost mut idx: Seq<int> = Seq::empty();
        let mut j: usize = 0;
        while j < self.sinks.len()
            invariant
                self.wf(),
                r == reachable@,
                r == self.tainted_set(),
                r.finite(),
                self.forest(r, parent@, dd@),
                j <= self.sinks@.len(),
                idx.len() == flows@.len(),
                forall|a: int, b: int| 0 <= a < b < idx.len() ==> #[trigger] idx[a] < #[trigger] idx[b],
                forall|k: int| 0 <= k < idx.len() ==> 0 <= #[trigger] idx[k] < j && self.sinks@[idx[k]] == flows@[k].sink,
                r.len() <= 100_000 ==> forall|i: int| 0 <= i < j && #[trigger] self.sink_hit(self.sinks@[i]) ==> idx.contains(i),
                forall|k: int| 0 <= k < flows@.len() ==> {
                    let fl = #[trigger] flows@[k];
                    &&& self.sink_hit(fl.sink)
                    &&& exists|j: int| 0 <= j < self.sources@.len() && self.sources@[j] == fl.source
                    &&& fl.witness@.len() >= 1
                    &&& fl.witness@.last() == (fl.sink.func, fl.sink.stmt)
                    &&& exists|facts: Seq<Fact>| self.witness_chain(fl.witness@, facts)
                        && facts.last() == (fl.sink.func, fl.sink.stmt, self.sink_var(fl.sink)->0)
                        && (r.len() <= 10_000 ==> facts[0] == (fl.source.func, 0usize, fl.source.var))
                    &&& r.len() <= 100_000 ==>
                        self.derives_from(fl.source, (fl.sink.func, fl.sink.stmt, self.sink_var(fl.sink)->0))
                },
            decreases self.sinks@.len() - j,
        {
            let sink = self.sinks[j];
            let f = &self.functions[sink.func as usize];
            let ghost flows0 = flows@;
            let ghost idx0 = idx;
            match &f.body[sink.stmt] {
                Stmt::Sink { val: Operand::Var(sv) } => {
                    proof {
                        assert(self.sink_var(sink) == Some(*sv));
                    }
                    let t: Fact = (sink.func, sink.stmt, *sv);
                    if fact_set_contains(&reachable, t) {
                        let witness = self.reconstruct(&parent, sink.func, sink.stmt, *sv, Ghost(r), dd);
                        match self.source_from_root(&parent, sink.func, sink.stmt, *sv, Ghost(r), dd) {
                            Some(source) => {
                                proof {
                                    reveal(TaintProblem::forest);
                                    assert(dd@[t] < r.len());
                                    let facts = choose|facts: Seq<Fact>| self.witness_chain(witness@, facts) && facts.last() == t
                                        && (dd@[t] < 10_000 ==> facts[0] == root_of(parent@, dd@, t));
                                    if r.len() <= 100_000 {
                                        self.lemma_root_derives(r, parent@, dd@, t);
                                        assert(self.derives_from(source, t));
                                    }
                                }
                                flows.push(Flow { source, sink, witness });
                                proof {
                                    idx = idx.push(j as int);
                                    assert forall|k: int| 0 <= k < flows@.len() implies {
                                        let fl = #[trigger] flows@[k];
                                        &&& self.sink_hit(fl.sink)
                                        &&& exists|j: int| 0 <= j < self.sources@.len() && self.sources@[j] == fl.source
                                        &&& fl.witness@.len() >= 1
                                        &&& fl.witness@.last() == (fl.sink.func, fl.sink.stmt)
                                        &&& exists|facts: Seq<Fact>| self.witness_chain(fl.witness@, facts)
                                            && facts.last() == (fl.sink.func, fl.sink.stmt, self.sink_var(fl.sink)->0)
                                            && (r.len() <= 10_000 ==> facts[0] == (fl.source.func, 0usize, fl.source.var))
                                        &&& r.len() <= 100_000 ==>
                                            self.derives_from(fl.source, (fl.sink.func, fl.sink.stmt, self.sink_var(fl.sink)->0))
                                    } by {
                                        if k < flows0.len() {
                                            assert(flows@[k] == flows0[k]);
                                        } else {
                                            assert(r.contains(t));
                                            assert(self.sink_hit(sink));
                                        }
                                    }
                                }
                            },
                            None => {},
                        }
                    }
                },
                _ => {},
            }
            proof {
                assert forall|k: int| 0 <= k < idx.len() implies 0 <= #[trigger] idx[k] < j + 1 && self.sinks@[idx[k]] == flows@[k].sink by {
                    if k < flows0.len() {
                        assert(flows@[k] == flows0[k]);
                    }
                }
                if r.len() <= 100_000 {
                    assert forall|i: int| 0 <= i < j + 1 && #[trigger] self.sink_hit(self.sinks@[i]) implies idx.contains(i) by {
                        if i == j {
                            reveal(TaintProblem::forest);
                            let t: Fact = (sink.func, sink.stmt, self.sink_var(sink)->0);
                            assert(r.contains(t));
                            assert(dd@[t] < r.len());
                            assert(idx.last() == j);
                        } else {
                            assert(idx0.contains(i));
                            let m = choose|m: int| 0 <= m < idx0.len() && idx0[m] == i;
                            assert(idx[m] == i);
                        }
                    }
                }
            }
            j = j + 1;
        }
        proof {
            assert(self.sink_order(flows@, idx));
        }
        flows
    }

}

/// Flow `fl` passes through function `g`: its source, its sink, or a
/// position of its witness is in `g`.
pub open spec fn flow_has(fl: Flow, g: Func) -> bool {
    ||| fl.source.func == g
    ||| fl.sink.func == g
    ||| exists|i: int| 0 <= i < fl.witness@.len() && fl.witness@[i].0 == g
}

/// The functions a list of flows passes through.
pub open spec fn flow_funcs(flows: Seq<Flow>) -> Set<Func> {
    Set::new(|g: Func| exists|k: int| 0 <= k < flows.len() && #[trigger] flow_has(flows[k], g))
}

/// The functions that taint flows pass through, collected from a list of
/// flows.
pub fn funcs_of_flows(flows: &[Flow]) -> (res: FxHashSet<Func>)
    ensures
        res@ == flow_funcs(flows@),
{
    let mut set = id_set_new();
    let mut k: usize = 0;
    proof {
        assert(set@ =~= flow_funcs(flows@.take(0)));
    }
    while k < flows.len()
        invariant
            k <= flows@.len(),
            set@ == flow_funcs(flows@.take(k as int)),
        decreases flows@.len() - k,
    {
        let f = &flows[k];
        let ghost fs = set@;
        id_set_insert(&mut set, f.source.func);
        id_set_insert(&mut set, f.sink.func);
        let ghost s1 = set@;
        let mut i: usize = 0;
        proof {
            assert(set@ =~= s1 + Set::new(|g: Func| exists|t: int| 0 <= t < 0 && f.witness@[t].0 == g));
        }
        while i < f.witness.len()
            invariant
                i <= f.witness@.len(),
                set@ == s1 + Set::new(|g: Func| exists|t: int| 0 <= t < i && f.witness@[t].0 == g),
            decreases f.witness@.len() - i,
        {
            let g0 = f.witness[i].0;
            id_set_insert(&mut set, g0);
            proof {
                assert forall|g: Func| #[trigger] set@.contains(g) == (s1 + Set::new(|g: Func| exists|t: int| 0 <= t < i + 1 && f.witness@[t].0 == g)).contains(g) by {
                    if g == g0 {
                        assert(f.witness@[i as int].0 == g);
                    }
                    if exists|t: int| 0 <= t < i + 1 && f.witness@[t].0 == g {
                        let t = choose|t: int| 0 <= t < i + 1 && f.witness@[t].0 == g;
                        if t < i {
                            assert(exists|t: int| 0 <= t < i && f.witness@[t].0 == g);
                        }
                    }
                }
                assert(set@ =~= s1 + Set::new(|g: Func| exists|t: int| 0 <= t < i + 1 && f.witness@[t].0 == g));
            }
            i = i + 1;
        }
        proof {
            let pre = flows@.take(k as int);
            let post = flows@.take(k + 1);
            assert(post[k as int] == *f);
            assert forall|g: Func| #[trigger] set@.contains(g) == flow_funcs(post).contains(g) by {
                if set@.contains(g) {
                    if fs.contains(g) {
                        let m = choose|m: int| 0 <= m < pre.len() && #[trigger] flow_has(pre[m], g);
                        assert(post[m] == pre[m]);
                        assert(flow_has(post[m], g));
                    } else {
                        assert(flow_has(*f, g));
                        assert(flow_has(post[k as int], g));
                    }
                }
                if flow_funcs(post).contains(g) {
                    let m = choose|m: int| 0 <= m < post.len() && #[trigger] flow_has(post[m], g);
                    if m < k {
                        assert(pre[m] == post[m]);
                        assert(flow_has(pre[m], g));
                        assert(fs.contains(g));
                    } else {
                        assert(flow_has(*f, g));
                        if exists|i: int| 0 <= i < f.witness@.len() && f.witness@[i].0 == g {
                            assert(exists|t: int| 0 <= t < f.witness@.len() && f.witness@[t].0 == g);
                        }
                    }
                }
            }
            assert(set@ =~= flow_funcs(post));
        }
        k = k + 1;
    }
    proof {
        assert(flows@.take(flows@.len() as int) =~= flows@);
    }
    set
}

/// The functions taint flows pass through: every function holding a fact on
/// a reported source-to-sink flow. Used to prune non-candidates before any
/// model call.
pub fn reachable_functions(tp: &TaintProblem) -> (res: FxHashSet<Func>)
    requires
        tp.wf(),
    ensures
        exists|flows: Seq<Flow>| tp.flows_ok(flows) && res@ == flow_funcs(flows),
{
    let flows = tp.solve();
    funcs_of_flows(flows.as_slice())
}

} // verus!
