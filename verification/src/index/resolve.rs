//! Looking symbols up by name, and resolving call edges by name. A call
//! records its caller and the callee path as written; the callee is the
//! symbol whose qualified path that is (the last one declared, when several
//! are), or else the one symbol whose short name is the path's last segment.
//! A name shared by several symbols resolves to nothing rather than to a
//! guess.

use vstd::prelude::*;
use lasso::Spur;
use rustc_hash::FxHashMap;
use crate::index::graph::{dedup_sorted, sort_edges, strictly_sorted_pairs};
use crate::index::symbol::{Symbol, SymbolKind};

verus! {

/// The positions of `key` in `s`, in increasing order.
pub open spec fn indices(s: Seq<Spur>, key: Spur) -> Seq<u32>
    decreases s.len(),
{
    if s.len() == 0 {
        Seq::empty()
    } else {
        indices(s.drop_last(), key) + (if s.last() == key { seq![(s.len() - 1) as u32] } else { Seq::empty() })
    }
}

/// The last symbol whose qualified path is `q`.
pub open spec fn last_with(quals: Seq<Spur>, q: Spur) -> Option<u32> {
    if indices(quals, q).len() > 0 {
        Some(indices(quals, q).last())
    } else {
        None
    }
}

/// Where a call `(caller, callee path, last segment of the path)` leads:
/// the last symbol with that qualified path, else the only symbol with that
/// short name; nowhere for a caller that is not a symbol.
pub open spec fn resolve(names: Seq<Spur>, quals: Seq<Spur>, call: (u32, Spur, Spur)) -> Option<(u32, u32)> {
    if call.0 >= names.len() {
        None
    } else if indices(quals, call.1).len() > 0 {
        Some((call.0, indices(quals, call.1).last()))
    } else if indices(names, call.2).len() == 1 {
        Some((call.0, indices(names, call.2)[0]))
    } else {
        None
    }
}

/// The first of `ids` whose symbol is callable.
pub open spec fn first_callable(ids: Seq<u32>, symbols: Seq<Symbol>) -> Option<u32>
    decreases ids.len(),
{
    if ids.len() == 0 {
        None
    } else if (symbols[ids[0] as int].kind == SymbolKind::Fn || symbols[ids[0] as int].kind == SymbolKind::Variant) {
        Some(ids[0])
    } else {
        first_callable(ids.drop_first(), symbols)
    }
}

/// The definition a user's query names: the last symbol with qualified path
/// `q`; else, among the symbols whose short name is `last`, the only one, or
/// the first callable one when there are several.
pub open spec fn definition(names: Seq<Spur>, quals: Seq<Spur>, symbols: Seq<Symbol>, q: Spur, last: Spur) -> Option<u32> {
    let c = indices(names, last);
    if indices(quals, q).len() > 0 {
        Some(indices(quals, q).last())
    } else if c.len() == 0 {
        None
    } else if c.len() == 1 {
        Some(c[0])
    } else {
        first_callable(c, symbols)
    }
}

// ---------------------------------------------------------------------------
// The rustc-hash maps from interned names to symbols. Each wrapper makes one
// call; its contract is what `std::collections::HashMap` documents for that
// call, over the map's contents (`@`). Interned keys compare as the
// interner's integer ids.

/// `FxHashMap::default()`.
#[verifier::external_body]
fn qual_map_new() -> (m: FxHashMap<Spur, u32>)
    ensures
        m@.dom() == Set::<Spur>::empty(),
{
    FxHashMap::default()
}

/// `insert(key, id)`: `key` now maps to `id`.
#[verifier::external_body]
fn qual_map_insert(m: &mut FxHashMap<Spur, u32>, key: Spur, id: u32)
    ensures
        final(m)@ == old(m)@.insert(key, id),
{
    m.insert(key, id);
}

/// `get(&key).copied()`.
#[verifier::external_body]
fn qual_map_get(m: &FxHashMap<Spur, u32>, key: Spur) -> (r: Option<u32>)
    ensures
        r == (if m@.contains_key(key) { Some(m@[key]) } else { None::<u32> }),
{
    m.get(&key).copied()
}

/// `FxHashMap::default()`.
#[verifier::external_body]
fn name_map_new() -> (m: FxHashMap<Spur, Vec<u32>>)
    ensures
        m@.dom() == Set::<Spur>::empty(),
{
    FxHashMap::default()
}

/// `entry(key).or_default().push(id)`: appends `id` to the list of `key`,
/// starting an empty list first when there is none.
#[verifier::external_body]
fn name_map_push(m: &mut FxHashMap<Spur, Vec<u32>>, key: Spur, id: u32)
    ensures
        final(m)@.dom() == old(m)@.dom().insert(key),
        final(m)@[key]@ == (if old(m)@.contains_key(key) { old(m)@[key]@ } else { Seq::<u32>::empty() }).push(id),
        forall|k: Spur| k != key && old(m)@.contains_key(k) ==> #[trigger] final(m)@[k] == old(m)@[k],
{
    m.entry(key).or_default().push(id);
}

/// `get(&key)`.
#[verifier::external_body]
fn name_map_get(m: &FxHashMap<Spur, Vec<u32>>, key: Spur) -> (r: Option<&Vec<u32>>)
    ensures
        match r {
            Some(v) => m@.contains_key(key) && *v == m@[key],
            None => !m@.contains_key(key),
        },
{
    m.get(&key)
}

proof fn lemma_indices_push(s: Seq<Spur>, x: Spur, key: Spur)
    ensures
        indices(s.push(x), key) == indices(s, key) + (if x == key { seq![s.len() as u32] } else { Seq::<u32>::empty() }),
{
    assert(s.push(x).drop_last() =~= s);
}

/// Every position listed for `key` in `s` is below the length of `s`.
proof fn lemma_indices_bound(s: Seq<Spur>, key: Spur)
    requires
        s.len() <= u32::MAX + 1,
    ensures
        forall|k: int| 0 <= k < indices(s, key).len() ==> #[trigger] indices(s, key)[k] < s.len(),
    decreases s.len(),
{
    if s.len() > 0 {
        lemma_indices_bound(s.drop_last(), key);
        let a = indices(s.drop_last(), key);
        let tail = if s.last() == key { seq![(s.len() - 1) as u32] } else { Seq::<u32>::empty() };
        assert(indices(s, key) == a + tail);
        assert forall|k: int| 0 <= k < indices(s, key).len() implies #[trigger] indices(s, key)[k] < s.len() by {
            if k < a.len() {
                assert(indices(s, key)[k] == a[k]);
            } else {
                assert(indices(s, key)[k] == tail[k - a.len()]);
            }
        }
    }
}

/// `first_callable` picks one of the ids it is given.
proof fn lemma_first_callable_in(ids: Seq<u32>, symbols: Seq<Symbol>)
    ensures
        first_callable(ids, symbols) matches Some(id) ==> ids.contains(id),
    decreases ids.len(),
{
    if ids.len() > 0 {
        lemma_first_callable_in(ids.drop_first(), symbols);
        if let Some(id) = first_callable(ids.drop_first(), symbols) {
            let k = choose|k: int| 0 <= k < ids.drop_first().len() && ids.drop_first()[k] == id;
            assert(ids[k + 1] == id);
        }
    }
}

/// A definition is always a symbol of the table.
pub proof fn lemma_definition_in_range(names: Seq<Spur>, quals: Seq<Spur>, symbols: Seq<Symbol>, q: Spur, last: Spur)
    requires
        names.len() == quals.len(),
        names.len() <= u32::MAX,
    ensures
        definition(names, quals, symbols, q, last) matches Some(id) ==> id < names.len(),
{
    lemma_indices_bound(names, last);
    lemma_indices_bound(quals, q);
    lemma_first_callable_in(indices(names, last), symbols);
}

/// The symbols of a workspace indexed by qualified path and by short name.
pub struct NameIndex {
    count: usize,
    by_qual: FxHashMap<Spur, u32>,
    by_name: FxHashMap<Spur, Vec<u32>>,
    names: Ghost<Seq<Spur>>,
    quals: Ghost<Seq<Spur>>,
}

impl NameIndex {
    /// The short names the index was built from, by symbol id.
    pub closed spec fn names(&self) -> Seq<Spur> {
        self.names@
    }

    /// The qualified paths the index was built from, by symbol id.
    pub closed spec fn quals(&self) -> Seq<Spur> {
        self.quals@
    }

    /// Each map lists what the name tables hold: a path maps to the last
    /// symbol with it, a short name to all symbols with it, in order.
    pub closed spec fn wf(&self) -> bool {
        &&& self.names@.len() == self.quals@.len()
        &&& self.names@.len() <= u32::MAX
        &&& self.count == self.names@.len()
        &&& forall|k: Spur| #[trigger] self.by_name@.contains_key(k) <==> indices(self.names@, k).len() > 0
        &&& forall|k: Spur| self.by_name@.contains_key(k) ==> #[trigger] self.by_name@[k]@ == indices(self.names@, k)
        &&& forall|k: Spur| #[trigger] self.by_qual@.contains_key(k) <==> indices(self.quals@, k).len() > 0
        &&& forall|k: Spur| self.by_qual@.contains_key(k) ==> #[trigger] self.by_qual@[k] == indices(self.quals@, k).last()
    }

    /// The two name tables have one entry per symbol, and ids fit in `u32`.
    pub proof fn lemma_wf_lengths(&self)
        requires
            self.wf(),
        ensures
            self.names().len() == self.quals().len(),
            self.names().len() <= u32::MAX,
    {
    }

    /// Index the symbols whose short names and qualified paths are `names`
    /// and `quals`, by symbol id.
    pub fn build(names: &[Spur], quals: &[Spur]) -> (idx: Self)
        requires
            quals@.len() == names@.len(),
            names@.len() <= u32::MAX,
        ensures
            idx.wf(),
            idx.names() == names@,
            idx.quals() == quals@,
    {
        let n = names.len();
        let mut by_name = name_map_new();
        let mut i: usize = 0;
        while i < n
            invariant
                n == names@.len(),
                n <= u32::MAX,
                i <= n,
                forall|k: Spur| #[trigger] by_name@.contains_key(k) <==> indices(names@.take(i as int), k).len() > 0,
                forall|k: Spur| by_name@.contains_key(k) ==> #[trigger] by_name@[k]@ == indices(names@.take(i as int), k),
            decreases n - i,
        {
            name_map_push(&mut by_name, names[i], i as u32);
            proof {
                assert(names@.take(i + 1) =~= names@.take(i as int).push(names@[i as int]));
                assert forall|k: Spur| #[trigger] by_name@.contains_key(k) <==> indices(names@.take(i + 1), k).len() > 0 by {
                    lemma_indices_push(names@.take(i as int), names@[i as int], k);
                }
                assert forall|k: Spur| by_name@.contains_key(k) implies #[trigger] by_name@[k]@ == indices(names@.take(i + 1), k) by {
                    lemma_indices_push(names@.take(i as int), names@[i as int], k);
                }
            }
            i = i + 1;
        }
        let mut by_qual = qual_map_new();
        i = 0;
        while i < n
            invariant
                n == quals@.len(),
                n <= u32::MAX,
                i <= n,
                forall|k: Spur| #[trigger] by_qual@.contains_key(k) <==> indices(quals@.take(i as int), k).len() > 0,
                forall|k: Spur| by_qual@.contains_key(k) ==> #[trigger] by_qual@[k] == indices(quals@.take(i as int), k).last(),
            decreases n - i,
        {
            qual_map_insert(&mut by_qual, quals[i], i as u32);
            proof {
                assert(quals@.take(i + 1) =~= quals@.take(i as int).push(quals@[i as int]));
                assert forall|k: Spur| #[trigger] by_qual@.contains_key(k) <==> indices(quals@.take(i + 1), k).len() > 0 by {
                    lemma_indices_push(quals@.take(i as int), quals@[i as int], k);
                }
                assert forall|k: Spur| by_qual@.contains_key(k) implies #[trigger] by_qual@[k] == indices(quals@.take(i + 1), k).last() by {
                    lemma_indices_push(quals@.take(i as int), quals@[i as int], k);
                }
            }
            i = i + 1;
        }
        proof {
            assert(names@.take(n as int) =~= names@);
            assert(quals@.take(n as int) =~= quals@);
        }
        NameIndex { count: n, by_qual, by_name, names: Ghost(names@), quals: Ghost(quals@) }
    }

    /// The last symbol whose qualified path is `q`.
    pub fn lookup_qual(&self, q: Spur) -> (res: Option<u32>)
        requires
            self.wf(),
        ensures
            res == last_with(self.quals(), q),
    {
        qual_map_get(&self.by_qual, q)
    }

    /// The symbols whose short name is `name`, in id order; `None` where
    /// there are none.
    pub fn lookup_name(&self, name: Spur) -> (res: Option<&Vec<u32>>)
        requires
            self.wf(),
        ensures
            match res {
                Some(v) => v@ == indices(self.names(), name) && v@.len() > 0,
                None => indices(self.names(), name).len() == 0,
            },
    {
        name_map_get(&self.by_name, name)
    }

    /// Where a call `(caller, callee path, last segment)` leads; see
    /// `resolve`.
    pub fn resolve(&self, call: (u32, Spur, Spur)) -> (res: Option<(u32, u32)>)
        requires
            self.wf(),
        ensures
            res == resolve(self.names(), self.quals(), call),
    {
        let (caller, callee, last) = call;
        if (caller as usize) < self.count {
            match self.lookup_qual(callee) {
                Some(d) => Some((caller, d)),
                None => match self.lookup_name(last) {
                    Some(cands) => {
                        if cands.len() == 1 {
                            Some((caller, cands[0]))
                        } else {
                            None
                        }
                    },
                    None => None,
                },
            }
        } else {
            None
        }
    }

    /// The definition that a query names (see `definition`): `q` is the
    /// query as a qualified path, `last` its last segment, and `symbols`
    /// the symbol table, by id.
    pub fn definition_of(&self, q: Spur, last: Spur, symbols: &[Symbol]) -> (res: Option<u32>)
        requires
            self.wf(),
            symbols@.len() == self.names().len(),
        ensures
            res == definition(self.names(), self.quals(), symbols@, q, last),
    {
        if let Some(id) = self.lookup_qual(q) {
            return Some(id);
        }
        let cands = match self.lookup_name(last) {
            Some(c) => c,
            None => {
                return None;
            },
        };
        if cands.len() == 1 {
            return Some(cands[0]);
        }
        proof {
            lemma_indices_bound(self.names(), last);
            assert(cands@.skip(0) =~= cands@);
            assert(definition(self.names(), self.quals(), symbols@, q, last) == first_callable(cands@, symbols@));
        }
        let mut k: usize = 0;
        while k < cands.len()
            invariant
                k <= cands@.len(),
                cands@.len() > 1,
                cands@ == indices(self.names(), last),
                symbols@.len() == self.names().len(),
                forall|j: int| 0 <= j < cands@.len() ==> #[trigger] cands@[j] < symbols@.len(),
                first_callable(cands@, symbols@) == first_callable(cands@.skip(k as int), symbols@),
                definition(self.names(), self.quals(), symbols@, q, last) == first_callable(cands@, symbols@),
            decreases cands@.len() - k,
        {
            let id = cands[k];
            proof {
                assert(cands@.skip(k as int).drop_first() =~= cands@.skip(k + 1));
                assert(cands@.skip(k as int)[0] == id);
            }
            if symbols[id as usize].kind.is_callable() {
                return Some(id);
            }
            k = k + 1;
        }
        proof {
            assert(cands@.skip(k as int).len() == 0);
        }
        None
    }
}

/// Resolve each call to a callee symbol (see `resolve`) and return the
/// resolved `(caller, callee)` edges, sorted, each once.
pub fn resolve_calls(names: &[Spur], quals: &[Spur], calls: &[(u32, Spur, Spur)]) -> (edges: Vec<(u32, u32)>)
    requires
        quals@.len() == names@.len(),
        names@.len() <= u32::MAX,
    ensures
        strictly_sorted_pairs(edges@),
        forall|e: (u32, u32)| edges@.contains(e) <==> exists|t: int| 0 <= t < calls@.len()
            && #[trigger] resolve(names@, quals@, calls@[t]) == Some(e),
{
    let idx = NameIndex::build(names, quals);
    let mut edges: Vec<(u32, u32)> = Vec::new();
    let mut t: usize = 0;
    while t < calls.len()
        invariant
            idx.wf(),
            idx.names() == names@,
            idx.quals() == quals@,
            t <= calls@.len(),
            forall|e: (u32, u32)| edges@.contains(e) <==> exists|t2: int| 0 <= t2 < t
                && #[trigger] resolve(names@, quals@, calls@[t2]) == Some(e),
        decreases calls@.len() - t,
    {
        let ghost e0 = edges@;
        let r = idx.resolve(calls[t]);
        if let Some(e) = r {
            edges.push(e);
        }
        proof {
            assert(r == resolve(names@, quals@, calls@[t as int]));
            assert(r is None ==> edges@ == e0);
            assert(r is Some ==> edges@ == e0.push(r.unwrap()));
            assert forall|e: (u32, u32)| edges@.contains(e) <==> exists|t2: int| 0 <= t2 < t + 1
                && #[trigger] resolve(names@, quals@, calls@[t2]) == Some(e) by {
                if edges@.contains(e) {
                    if e0.contains(e) {
                        let t2 = choose|t2: int| 0 <= t2 < t && #[trigger] resolve(names@, quals@, calls@[t2]) == Some(e);
                    } else {
                        let j = choose|j: int| 0 <= j < edges@.len() && edges@[j] == e;
                        if j < e0.len() {
                            assert(e0.contains(e));
                        }
                        assert(resolve(names@, quals@, calls@[t as int]) == Some(e));
                    }
                }
                if exists|t2: int| 0 <= t2 < t + 1 && #[trigger] resolve(names@, quals@, calls@[t2]) == Some(e) {
                    let t2 = choose|t2: int| 0 <= t2 < t + 1 && #[trigger] resolve(names@, quals@, calls@[t2]) == Some(e);
                    if t2 < t {
                        assert(e0.contains(e));
                        let j = choose|j: int| 0 <= j < e0.len() && e0[j] == e;
                        assert(edges@[j] == e);
                    } else {
                        assert(edges@[e0.len() as int] == e);
                    }
                }
            }
        }
        t = t + 1;
    }
    let ghost before = edges@;
    sort_edges(&mut edges);
    let res = dedup_sorted(&edges);
    proof {
        broadcast use vstd::seq_lib::group_to_multiset_ensures;
        assert forall|e: (u32, u32)| edges@.contains(e) <==> before.contains(e) by {
            assert(edges@.contains(e) <==> edges@.to_multiset().count(e) > 0);
            assert(before.contains(e) <==> before.to_multiset().count(e) > 0);
        }
        assert forall|e: (u32, u32)| res@.contains(e) <==> exists|t2: int| 0 <= t2 < calls@.len()
            && #[trigger] resolve(names@, quals@, calls@[t2]) == Some(e) by {
            assert(res@.to_set().contains(e) <==> edges@.to_set().contains(e));
            assert(res@.contains(e) <==> before.contains(e));
        }
    }
    res
}

} // verus!
