//! The prompt trie over the chains' token sequences. Emitting chains in
//! depth-first pre-order makes the total prefill the number of distinct trie
//! nodes: every shared prefix is paid once.

use vstd::prelude::*;

verus! {

/// A scan chain: a token sequence with a cost and the (symbol, class) pairs
/// it covers. `tokens` is the shared-structure key the trie is built over.
#[derive(Clone, Debug)]
pub struct Chain {
    pub id: u32,
    pub tokens: Vec<u32>,
    /// Prefill cost in tokens (distinct-token mass of this chain in isolation).
    pub cost: u32,
    /// (symbol, taint-class) pairs this chain covers — for budgeted coverage.
    pub covers: Vec<u32>,
}

/// A trie node: the token on the edge into it, its children in insertion
/// order, and the chain ending here, if any.
#[derive(Debug)]
struct TrieNode {
    token: Option<u32>,
    children: Vec<TrieNode>,
    chain: Option<u32>,
}

/// The token path `p` leads from `n` to a node.
spec fn has_path(n: TrieNode, p: Seq<u32>) -> bool
    decreases p.len(),
{
    if p.len() == 0 {
        true
    } else {
        exists|i: int| 0 <= i < n.children@.len() && n.children@[i].token == Some(p[0])
            && has_path(n.children@[i], p.drop_first())
    }
}

/// The chain ending at the node that path `p` leads to.
spec fn chain_at(n: TrieNode, p: Seq<u32>) -> Option<u32>
    decreases p.len(), 0int,
{
    if p.len() == 0 {
        n.chain
    } else {
        chain_in(n.children@, p[0], p.drop_first())
    }
}

/// The chain at path `q` below the first of `cs` labelled `t`.
spec fn chain_in(cs: Seq<TrieNode>, t: u32, q: Seq<u32>) -> Option<u32>
    decreases q.len(), cs.len() + 1,
{
    if cs.len() == 0 {
        None
    } else if cs[0].token == Some(t) {
        chain_at(cs[0], q)
    } else {
        chain_in(cs.drop_first(), t, q)
    }
}

proof fn lemma_chain_in(cs: Seq<TrieNode>, t: u32, q: Seq<u32>, k: int)
    requires
        forall|i: int, j: int| 0 <= i < j < cs.len() ==> (#[trigger] cs[i]).token != (#[trigger] cs[j]).token,
        0 <= k < cs.len(),
        cs[k].token == Some(t),
    ensures
        chain_in(cs, t, q) == chain_at(cs[k], q),
    decreases cs.len(),
{
    if k > 0 {
        assert(cs[0].token != cs[k].token);
        let d = cs.drop_first();
        assert forall|i: int, j: int| 0 <= i < j < d.len() implies (#[trigger] d[i]).token != (#[trigger] d[j]).token by {
            assert(d[i] == cs[i + 1] && d[j] == cs[j + 1]);
        }
        lemma_chain_in(d, t, q, k - 1);
    }
}

proof fn lemma_chain_in_none(cs: Seq<TrieNode>, t: u32, q: Seq<u32>)
    requires
        forall|i: int| 0 <= i < cs.len() ==> (#[trigger] cs[i]).token != Some(t),
    ensures
        chain_in(cs, t, q) is None,
    decreases cs.len(),
{
    if cs.len() > 0 {
        lemma_chain_in_none(cs.drop_first(), t, q);
    }
}

/// Number of nodes of a tree.
spec fn node_count(n: TrieNode) -> nat
    decreases n,
{
    1 + forest_count(n.children@)
}

/// Number of nodes of a list of trees.
spec fn forest_count(cs: Seq<TrieNode>) -> nat
    decreases cs,
{
    if cs.len() == 0 {
        0
    } else {
        node_count(cs[0]) + forest_count(cs.drop_first())
    }
}

/// Chain ids in depth-first pre-order: the node's own chain, then each
/// child's subtree in order.
spec fn dfs(n: TrieNode) -> Seq<u32>
    decreases n,
{
    (match n.chain {
        Some(c) => seq![c],
        None => Seq::empty(),
    }) + dfs_forest(n.children@)
}

spec fn dfs_forest(cs: Seq<TrieNode>) -> Seq<u32>
    decreases cs,
{
    if cs.len() == 0 {
        Seq::empty()
    } else {
        dfs(cs[0]) + dfs_forest(cs.drop_first())
    }
}

/// Children are labelled by distinct tokens, recursively.
spec fn wf_node(n: TrieNode) -> bool
    decreases n,
{
    &&& forall|i: int| 0 <= i < n.children@.len() ==> (#[trigger] n.children@[i]).token is Some
    &&& forall|i: int, j: int| 0 <= i < j < n.children@.len() ==>
        (#[trigger] n.children@[i]).token != (#[trigger] n.children@[j]).token
    &&& wf_forest(n.children@)
}

spec fn wf_forest(cs: Seq<TrieNode>) -> bool
    decreases cs,
{
    cs.len() == 0 || (wf_node(cs[0]) && wf_forest(cs.drop_first()))
}

proof fn lemma_wf_forest_at(cs: Seq<TrieNode>, i: int)
    requires
        wf_forest(cs),
        0 <= i < cs.len(),
    ensures
        wf_node(cs[i]),
    decreases cs.len(),
{
    if i > 0 {
        lemma_wf_forest_at(cs.drop_first(), i - 1);
    }
}

proof fn lemma_wf_forest_update(cs: Seq<TrieNode>, i: int, c: TrieNode)
    requires
        wf_forest(cs),
        0 <= i < cs.len(),
        wf_node(c),
    ensures
        wf_forest(cs.update(i, c)),
    decreases cs.len(),
{
    if i > 0 {
        lemma_wf_forest_update(cs.drop_first(), i - 1, c);
        assert(cs.update(i, c).drop_first() =~= cs.drop_first().update(i - 1, c));
    } else {
        assert(cs.update(i, c).drop_first() =~= cs.drop_first());
    }
}

proof fn lemma_wf_forest_push(cs: Seq<TrieNode>, c: TrieNode)
    requires
        wf_forest(cs),
        wf_node(c),
    ensures
        wf_forest(cs.push(c)),
    decreases cs.len(),
{
    let d = cs.push(c);
    if cs.len() > 0 {
        lemma_wf_forest_push(cs.drop_first(), c);
        assert(d.drop_first() =~= cs.drop_first().push(c));
        assert(d[0] == cs[0]);
        assert(wf_node(d[0]));
        assert(wf_forest(d.drop_first()));
    } else {
        assert(d.drop_first() =~= Seq::<TrieNode>::empty());
        assert(d[0] == c);
        assert(wf_node(d[0]));
        assert(wf_forest(d.drop_first()));
    }
}

proof fn lemma_full_forest_at(cs: Seq<TrieNode>, i: int)
    requires
        full_forest(cs),
        0 <= i < cs.len(),
    ensures
        full_node(cs[i]),
    decreases cs.len(),
{
    if i > 0 {
        lemma_full_forest_at(cs.drop_first(), i - 1);
    }
}

proof fn lemma_full_forest_update(cs: Seq<TrieNode>, i: int, c: TrieNode)
    requires
        full_forest(cs),
        0 <= i < cs.len(),
        full_node(c),
    ensures
        full_forest(cs.update(i, c)),
    decreases cs.len(),
{
    if i > 0 {
        lemma_full_forest_update(cs.drop_first(), i - 1, c);
        assert(cs.update(i, c).drop_first() =~= cs.drop_first().update(i - 1, c));
    } else {
        assert(cs.update(i, c).drop_first() =~= cs.drop_first());
    }
}

proof fn lemma_full_forest_push(cs: Seq<TrieNode>, c: TrieNode)
    requires
        full_forest(cs),
        full_node(c),
    ensures
        full_forest(cs.push(c)),
    decreases cs.len(),
{
    let d = cs.push(c);
    if cs.len() > 0 {
        lemma_full_forest_push(cs.drop_first(), c);
        assert(d.drop_first() =~= cs.drop_first().push(c));
        assert(d[0] == cs[0]);
        assert(full_node(d[0]));
        assert(full_forest(d.drop_first()));
    } else {
        assert(d.drop_first() =~= Seq::<TrieNode>::empty());
        assert(d[0] == c);
        assert(full_node(d[0]));
        assert(full_forest(d.drop_first()));
    }
}

proof fn lemma_forest_count_update(cs: Seq<TrieNode>, i: int, c: TrieNode)
    requires
        0 <= i < cs.len(),
    ensures
        forest_count(cs.update(i, c)) == forest_count(cs) - node_count(cs[i]) + node_count(c),
    decreases cs.len(),
{
    if i > 0 {
        lemma_forest_count_update(cs.drop_first(), i - 1, c);
        assert(cs.update(i, c).drop_first() =~= cs.drop_first().update(i - 1, c));
    } else {
        assert(cs.update(i, c).drop_first() =~= cs.drop_first());
    }
}

proof fn lemma_forest_count_push(cs: Seq<TrieNode>, c: TrieNode)
    ensures
        forest_count(cs.push(c)) == forest_count(cs) + node_count(c),
    decreases cs.len(),
{
    let d = cs.push(c);
    if cs.len() > 0 {
        lemma_forest_count_push(cs.drop_first(), c);
        assert(d.drop_first() =~= cs.drop_first().push(c));
        assert(d[0] == cs[0]);
        assert(forest_count(d) == node_count(d[0]) + forest_count(d.drop_first()));
    } else {
        assert(d.drop_first() =~= Seq::<TrieNode>::empty());
        assert(d[0] == c);
        assert(forest_count(d.drop_first()) == 0);
        assert(forest_count(d) == node_count(d[0]) + forest_count(d.drop_first()));
    }
}

/// A prefix of `tokens` (including the empty one and `tokens` itself).
pub open spec fn is_prefix(p: Seq<u32>, tokens: Seq<u32>) -> bool {
    p.len() <= tokens.len() && p == tokens.take(p.len() as int)
}





proof fn has_path_child(n: TrieNode, p: Seq<u32>) -> (i: int)
    requires
        p.len() > 0,
        has_path(n, p),
    ensures
        0 <= i < n.children@.len(),
        n.children@[i].token == Some(p[0]),
        has_path(n.children@[i], p.drop_first()),
{
    choose|i: int| 0 <= i < n.children@.len() && n.children@[i].token == Some(p[0])
        && has_path(n.children@[i], p.drop_first())
}

proof fn has_path_intro(n: TrieNode, p: Seq<u32>, i: int)
    requires
        p.len() > 0,
        0 <= i < n.children@.len(),
        n.children@[i].token == Some(p[0]),
        has_path(n.children@[i], p.drop_first()),
    ensures
        has_path(n, p),
{
    reveal_with_fuel(has_path, 2);
    assert(n.children@[i].token == Some(p[0]) && has_path(n.children@[i], p.drop_first()));
}

impl TrieNode {
    fn token_is(&self, t: u32) -> (res: bool)
        ensures
            res == (self.token == Some(t)),
    {
        match self.token {
            Some(x) => x == t,
            None => false,
        }
    }

    fn leaf(token: u32) -> (n: TrieNode)
        ensures
            n.token == Some(token),
            n.children@.len() == 0,
            n.chain is None,
            wf_node(n),
    {
        TrieNode { token: Some(token), children: Vec::new(), chain: None }
    }

    /// Insert the path `tokens`, ending at chain `chain_id`.
    fn insert(&mut self, tokens: &[u32], chain_id: u32)
        requires
            wf_node(*old(self)),
        ensures
            wf_node(*final(self)),
            final(self).token == old(self).token,
            forall|p: Seq<u32>| #[trigger] has_path(*final(self), p) <==> has_path(*old(self), p) || is_prefix(p, tokens@),
            forall|p: Seq<u32>| has_path(*final(self), p) ==> #[trigger] chain_at(*final(self), p)
                == if p == tokens@ { Some(chain_id) } else { chain_at(*old(self), p) },
            full_forest(old(self).children@) ==> full_node(*final(self)),
        decreases tokens@.len(),
    {
        let ghost old_node = *self;
        if tokens.len() == 0 {
            self.chain = Some(chain_id);
            proof {
                assert(self.children@ == old_node.children@);
                assert(full_forest(old_node.children@) ==> full_node(*self));
                assert forall|p: Seq<u32>| has_path(*self, p) implies #[trigger] chain_at(*self, p)
                    == if p == tokens@ { Some(chain_id) } else { chain_at(old_node, p) } by {
                    if p.len() == 0 {
                        assert(p =~= tokens@);
                    }
                }
                assert forall|p: Seq<u32>| #[trigger] has_path(*self, p) <==> has_path(old_node, p) || is_prefix(p, tokens@) by {
                    if p.len() == 0 {
                        assert(p =~= tokens@.take(0));
                    } else {
                        assert(!is_prefix(p, tokens@));
                    }
                }
            }
            return;
        }
        let head = tokens[0];
        let rest = vstd::slice::slice_subrange(tokens, 1, tokens.len());
        proof {
            assert(rest@ =~= tokens@.drop_first());
        }
        let mut i: usize = 0;
        while i < self.children.len() && !self.children[i].token_is(head)
            invariant
                i <= self.children@.len(),
                forall|k: int| 0 <= k < i ==> (#[trigger] self.children@[k]).token != Some(head),
            decreases self.children@.len() - i,
        {
            i = i + 1;
        }
        let ghost cs0 = self.children@;
        let ghost new_child: TrieNode;
        let ghost c0: TrieNode;
        if i < self.children.len() {
            proof {
                lemma_wf_forest_at(cs0, i as int);
                assert(cs0[i as int].token == Some(head));
                c0 = cs0[i as int];
            }
            self.children[i].insert(rest, chain_id);
            proof {
                new_child = self.children@[i as int];
                assert(self.children@ == cs0.update(i as int, new_child));
                lemma_wf_forest_update(cs0, i as int, new_child);
                if full_forest(cs0) {
                    lemma_full_forest_at(cs0, i as int);
                    assert(full_node(new_child));
                    lemma_full_forest_update(cs0, i as int, new_child);
                }
            }
        } else {
            let mut child = TrieNode::leaf(head);
            proof {
                c0 = child;
                assert forall|q: Seq<u32>| #[trigger] has_path(c0, q) implies q.len() == 0 by {
                    if q.len() > 0 {
                        let j = has_path_child(c0, q);
                    }
                }
                assert forall|q: Seq<u32>| q.len() > 0 implies #[trigger] chain_at(c0, q) is None by {}
            }
            proof {
                assert(full_forest(c0.children@));
            }
            child.insert(rest, chain_id);
            self.children.push(child);
            proof {
                new_child = child;
                assert(self.children@ == cs0.push(new_child));
                lemma_wf_forest_push(cs0, new_child);
                if full_forest(cs0) {
                    lemma_full_forest_push(cs0, new_child);
                }
            }
        }
        proof {
            let n = *self;
            let k = i as int;
            assert(n.children@[k] == new_child);
            if full_forest(cs0) {
                assert(full_forest(n.children@));
                assert(n.children@.len() > 0);
                assert(full_node(n));
            }
            assert(new_child.token == Some(head));
            assert forall|a: int, b: int| 0 <= a < b < n.children@.len() implies
                (#[trigger] n.children@[a]).token != (#[trigger] n.children@[b]).token by {
                if a != k && b != k {
                    assert(n.children@[a] == cs0[a] && n.children@[b] == cs0[b]);
                } else if a == k {
                    assert(n.children@[b] == cs0[b]);
                } else {
                    assert(n.children@[a] == cs0[a]);
                }
            }
            assert forall|a: int| 0 <= a < n.children@.len() implies (#[trigger] n.children@[a]).token is Some by {
                if a != k {
                    assert(n.children@[a] == cs0[a]);
                }
            }
            assert forall|p: Seq<u32>| #[trigger] has_path(*self, p) <==> has_path(old_node, p) || is_prefix(p, tokens@) by {
                if p.len() > 0 {
                    let q = p.drop_first();
                    if p[0] == head {
                        assert(is_prefix(p, tokens@) <==> is_prefix(q, rest@)) by {
                            if is_prefix(q, rest@) {
                                assert forall|x: int| 0 <= x < p.len() implies p[x] == tokens@.take(p.len() as int)[x] by {
                                    if x > 0 {
                                        assert(p[x] == q[x - 1]);
                                        assert(q[x - 1] == rest@.take(q.len() as int)[x - 1]);
                                    }
                                }
                                assert(p =~= tokens@.take(p.len() as int));
                            }
                            if is_prefix(p, tokens@) {
                                assert forall|x: int| 0 <= x < q.len() implies q[x] == rest@.take(q.len() as int)[x] by {
                                    assert(q[x] == p[x + 1]);
                                    assert(p[x + 1] == tokens@.take(p.len() as int)[x + 1]);
                                }
                                assert(q =~= rest@.take(q.len() as int));
                            }
                        }
                        assert(has_path(new_child, q) <==> has_path(c0, q) || is_prefix(q, rest@));
                        if has_path(n, p) {
                            let j = has_path_child(n, p);
                            assert(j == k);
                            if has_path(c0, q) {
                                if k < cs0.len() {
                                    assert(c0 == cs0[k]);
                                    has_path_intro(old_node, p, k);
                                } else {
                                    assert(q.len() == 0);
                                    assert(q =~= rest@.take(0));
                                }
                            }
                        }
                        if has_path(old_node, p) {
                            let j = has_path_child(old_node, p);
                            assert(cs0[j].token == Some(head));
                            assert(j == k);
                            assert(c0 == cs0[k]);
                            assert(has_path(new_child, q));
                            has_path_intro(n, p, k);
                        }
                        if is_prefix(p, tokens@) {
                            assert(has_path(new_child, q));
                            has_path_intro(n, p, k);
                        }
                    } else {
                        assert(!is_prefix(p, tokens@)) by {
                            if is_prefix(p, tokens@) {
                                assert(p[0] == tokens@.take(p.len() as int)[0]);
                            }
                        }
                        if has_path(n, p) {
                            let j = has_path_child(n, p);
                            assert(j != k);
                            assert(n.children@[j] == cs0[j]);
                            has_path_intro(old_node, p, j);
                        }
                        if has_path(old_node, p) {
                            let j = has_path_child(old_node, p);
                            assert(n.children@[j] == cs0[j]);
                            has_path_intro(n, p, j);
                        }
                    }
                } else {
                    assert(p =~= tokens@.take(0));
                }
            }
            assert forall|p: Seq<u32>| has_path(*self, p) implies #[trigger] chain_at(*self, p)
                == if p == tokens@ { Some(chain_id) } else { chain_at(old_node, p) } by {
                if p.len() > 0 {
                    let q = p.drop_first();
                    let jj = has_path_child(n, p);
                    if p[0] == head {
                        assert(jj == k);
                        assert(has_path(new_child, q));
                        lemma_chain_in(n.children@, head, q, k);
                        assert(p == tokens@ <==> q == rest@) by {
                            if q == rest@ {
                                assert forall|x: int| 0 <= x < p.len() implies p[x] == tokens@[x] by {
                                    if x > 0 {
                                        assert(p[x] == q[x - 1]);
                                    }
                                }
                                assert(p =~= tokens@);
                            }
                        }
                        if k < cs0.len() {
                            lemma_chain_in(cs0, head, q, k);
                        } else {
                            lemma_chain_in_none(cs0, head, q);
                            if q.len() == 0 {
                                assert(chain_at(c0, q) == c0.chain);
                            } else {
                                assert(chain_at(c0, q) is None);
                            }
                        }
                    } else {
                        assert(jj != k);
                        assert(n.children@[jj] == cs0[jj]);
                        lemma_chain_in(n.children@, p[0], q, jj);
                        lemma_chain_in(cs0, p[0], q, jj);
                        assert(p != tokens@);
                    }
                }
            }
        }
    }
}

proof fn lemma_forest_count_take(cs: Seq<TrieNode>, k: int)
    requires
        0 <= k < cs.len(),
    ensures
        forest_count(cs.take(k + 1)) == forest_count(cs.take(k)) + node_count(cs[k]),
        forest_count(cs.take(k + 1)) <= forest_count(cs),
    decreases cs.len(),
{
    lemma_forest_count_push(cs.take(k), cs[k]);
    assert(cs.take(k).push(cs[k]) =~= cs.take(k + 1));
    lemma_forest_count_prefix(cs, k + 1);
}

proof fn lemma_forest_count_prefix(cs: Seq<TrieNode>, k: int)
    requires
        0 <= k <= cs.len(),
    ensures
        forest_count(cs.take(k)) <= forest_count(cs),
    decreases cs.len(),
{
    if k == cs.len() {
        assert(cs.take(k) =~= cs);
    } else if k > 0 {
        lemma_forest_count_prefix(cs.drop_first(), k - 1);
        assert(cs.take(k).drop_first() =~= cs.drop_first().take(k - 1));
        assert(cs.take(k)[0] == cs[0]);
    } else {
        assert(forest_count(cs.take(0)) == 0);
    }
}

proof fn lemma_dfs_forest_take(cs: Seq<TrieNode>, k: int)
    requires
        0 <= k < cs.len(),
    ensures
        dfs_forest(cs.take(k + 1)) == dfs_forest(cs.take(k)) + dfs(cs[k]),
    decreases k,
{
    if k == 0 {
        let t1 = cs.take(1);
        assert(t1.drop_first() =~= Seq::<TrieNode>::empty());
        assert(t1[0] == cs[0]);
        assert(dfs_forest(t1) =~= dfs(cs[0]) + dfs_forest(t1.drop_first()));
        assert(dfs_forest(cs.take(0)) =~= Seq::<u32>::empty());
    } else {
        let d = cs.drop_first();
        lemma_dfs_forest_take(d, k - 1);
        assert(cs.take(k + 1).drop_first() =~= d.take(k));
        assert(cs.take(k).drop_first() =~= d.take(k - 1));
        assert(cs.take(k + 1)[0] == cs[0] && cs.take(k)[0] == cs[0]);
        assert(d[k - 1] == cs[k]);
        assert(dfs_forest(cs.take(k + 1)) =~= dfs(cs[0]) + dfs_forest(d.take(k)));
        assert(dfs_forest(cs.take(k)) =~= dfs(cs[0]) + dfs_forest(d.take(k - 1)));
    }
}

impl TrieNode {
    /// Number of nodes of this subtree.
    fn distinct_nodes(&self) -> (res: usize)
        requires
            node_count(*self) <= usize::MAX,
        ensures
            res == node_count(*self),
        decreases *self,
    {
        let mut total: usize = 1;
        let mut i: usize = 0;
        while i < self.children.len()
            invariant
                node_count(*self) <= usize::MAX,
                node_count(*self) == 1 + forest_count(self.children@),
                i <= self.children@.len(),
                total == 1 + forest_count(self.children@.take(i as int)),
            decreases self.children@.len() - i,
        {
            proof {
                lemma_forest_count_take(self.children@, i as int);
            }
            let c = self.children[i].distinct_nodes();
            total = total + c;
            i = i + 1;
        }
        proof {
            assert(self.children@.take(self.children@.len() as int) =~= self.children@);
        }
        total
    }

    /// Chain ids in depth-first pre-order, appended to `out`.
    fn dfs_leaves(&self, out: &mut Vec<u32>)
        ensures
            final(out)@ == old(out)@ + dfs(*self),
        decreases *self,
    {
        let ghost start = out@;
        match self.chain {
            Some(id) => out.push(id),
            None => {},
        }
        let ghost own = out@;
        let mut i: usize = 0;
        proof {
            assert(dfs_forest(self.children@.take(0)) =~= Seq::<u32>::empty());
            assert(own =~= start + (match self.chain {
                Some(c) => seq![c],
                None => Seq::<u32>::empty(),
            }));
        }
        while i < self.children.len()
            invariant
                i <= self.children@.len(),
                out@ == own + dfs_forest(self.children@.take(i as int)),
            decreases self.children@.len() - i,
        {
            proof {
                lemma_dfs_forest_take(self.children@, i as int);
            }
            self.children[i].dfs_leaves(out);
            i = i + 1;
        }
        proof {
            assert(self.children@.take(self.children@.len() as int) =~= self.children@);
        }
    }
}

/// `p` is the empty path or a prefix of some chain's tokens.
pub open spec fn chain_prefix(chains: Seq<Chain>, p: Seq<u32>) -> bool {
    p.len() == 0 || exists|i: int| 0 <= i < chains.len() && is_prefix(p, #[trigger] chains[i].tokens@)
}

/// The id of the last chain whose tokens are exactly `p`.
pub open spec fn last_chain(chains: Seq<Chain>, p: Seq<u32>) -> Option<u32>
    decreases chains.len(),
{
    if chains.len() == 0 {
        None
    } else if chains.last().tokens@ == p {
        Some(chains.last().id)
    } else {
        last_chain(chains.drop_last(), p)
    }
}

/// Total cost of the chains.
pub open spec fn cost_sum(chains: Seq<Chain>) -> int
    decreases chains.len(),
{
    if chains.len() == 0 {
        0
    } else {
        cost_sum(chains.drop_last()) + chains.last().cost
    }
}

/// The prompt trie over a set of chains.
#[derive(Debug)]
pub struct PromptTrie {
    root: TrieNode,
}

impl PromptTrie {
    /// Well-formed: an unlabelled root, children labelled by distinct tokens.
    pub closed spec fn wf(&self) -> bool {
        wf_node(self.root) && self.root.token is None
    }

    /// The token paths of the nodes (the empty path is the root).
    pub closed spec fn has(&self, p: Seq<u32>) -> bool {
        has_path(self.root, p)
    }

    /// The chain recorded at the node of path `p`.
    pub closed spec fn chain_of(&self, p: Seq<u32>) -> Option<u32> {
        chain_at(self.root, p)
    }

    /// Number of nodes.
    pub closed spec fn size(&self) -> nat {
        node_count(self.root)
    }

    /// One node per distinct token path: the size is the number of paths
    /// the trie holds (the empty path, its root, included). For a trie
    /// built from chains, those are the prefixes of the chains' tokens.
    pub proof fn lemma_size_counts_paths(&self)
        requires
            self.wf(),
        ensures
            Set::new(|p: Seq<u32>| self.has(p)).finite(),
            self.size() == Set::new(|p: Seq<u32>| self.has(p)).len(),
    {
        lemma_node_paths(self.root);
        assert(Set::new(|p: Seq<u32>| self.has(p)) =~= path_set(self.root));
    }

    /// Chain ids in depth-first pre-order.
    pub closed spec fn order(&self) -> Seq<u32> {
        dfs(self.root)
    }

    /// Number of children of the root.
    pub closed spec fn fanout(&self) -> nat {
        self.root.children@.len()
    }

    /// Every leaf ends a chain: each node lies on the way to one.
    pub closed spec fn full(&self) -> bool {
        full_forest(self.root.children@)
    }

    /// The token path of each node that records a chain, in depth-first
    /// pre-order: the paths of the chains `order` lists.
    pub closed spec fn order_paths(&self) -> Seq<Seq<u32>> {
        dfs_paths(self.root, Seq::empty())
    }

    /// The trie of `chains`: its nodes are the prefixes of the chains'
    /// token sequences, and a node records the id of the last chain whose
    /// tokens end there.
    pub fn build(chains: &[Chain]) -> (trie: Self)
        ensures
            trie.wf(),
            trie.full(),
            forall|p: Seq<u32>| #[trigger] trie.has(p) <==> chain_prefix(chains@, p),
            forall|p: Seq<u32>| trie.has(p) ==> #[trigger] trie.chain_of(p) == last_chain(chains@, p),
    {
        let mut root = TrieNode { token: None, children: Vec::new(), chain: None };
        proof {
            assert forall|p: Seq<u32>| #[trigger] has_path(root, p) implies p.len() == 0 by {
                if p.len() > 0 {
                    let j = has_path_child(root, p);
                }
            }
        }
        let mut i: usize = 0;
        while i < chains.len()
            invariant
                i <= chains@.len(),
                wf_node(root),
                root.token is None,
                full_forest(root.children@),
                forall|p: Seq<u32>| #[trigger] has_path(root, p) <==> chain_prefix(chains@.take(i as int), p),
                forall|p: Seq<u32>| has_path(root, p) ==> #[trigger] chain_at(root, p) == last_chain(chains@.take(i as int), p),
            decreases chains@.len() - i,
        {
            let ghost before = root;
            let c = &chains[i];
            root.insert(c.tokens.as_slice(), c.id);
            proof {
                assert(full_node(root));
                let t = chains@.take(i + 1);
                assert(t.drop_last() =~= chains@.take(i as int));
                assert(t.last() == chains@[i as int]);
                assert forall|p: Seq<u32>| #[trigger] has_path(root, p) <==> chain_prefix(t, p) by {
                    if chain_prefix(t, p) && p.len() > 0 {
                        let j = choose|j: int| 0 <= j < t.len() && is_prefix(p, #[trigger] t[j].tokens@);
                        if j < i {
                            assert(chains@.take(i as int)[j] == t[j]);
                        }
                    }
                    if chain_prefix(chains@.take(i as int), p) && p.len() > 0 {
                        let j = choose|j: int| 0 <= j < i && is_prefix(p, #[trigger] chains@.take(i as int)[j].tokens@);
                        assert(t[j] == chains@.take(i as int)[j]);
                    }
                    if is_prefix(p, c.tokens@) && p.len() > 0 {
                        assert(t[i as int] == *c);
                    }
                }
                assert forall|p: Seq<u32>| has_path(root, p) implies #[trigger] chain_at(root, p) == last_chain(t, p) by {
                    if p != c.tokens@ {
                        if !has_path(before, p) {
                            lemma_chain_at_absent(before, p);
                            lemma_last_chain_absent(chains@.take(i as int), p);
                        }
                    }
                }
            }
            i = i + 1;
        }
        proof {
            assert(chains@.take(chains@.len() as int) =~= chains@);
        }
        PromptTrie { root }
    }

    /// Number of distinct trie nodes (root + every token node). Under DFS
    /// with a cache holding the longest path, this is the minimum total
    /// prefill.
    pub fn distinct_nodes(&self) -> (res: usize)
        requires
            self.size() <= usize::MAX,
        ensures
            res == self.size(),
    {
        self.root.distinct_nodes()
    }

    /// The naive prefill: every chain paid in full, no sharing.
    pub fn naive_prefill(chains: &[Chain]) -> (res: u32)
        requires
            cost_sum(chains@) <= u32::MAX,
        ensures
            res == cost_sum(chains@),
    {
        let mut total: u32 = 0;
        let mut i: usize = 0;
        while i < chains.len()
            invariant
                i <= chains@.len(),
                cost_sum(chains@) <= u32::MAX,
                total == cost_sum(chains@.take(i as int)),
            decreases chains@.len() - i,
        {
            proof {
                assert(chains@.take(i + 1).drop_last() =~= chains@.take(i as int));
                lemma_cost_sum_prefix(chains@, i + 1);
            }
            total = total + chains[i].cost;
            i = i + 1;
        }
        proof {
            assert(chains@.take(chains@.len() as int) =~= chains@);
        }
        total
    }

    /// DFS pre-order of chain ids — the scan order that achieves the minimum.
    pub fn dfs_order(&self) -> (res: Vec<u32>)
        ensures
            res@ == self.order(),
    {
        let mut out: Vec<u32> = Vec::new();
        self.root.dfs_leaves(&mut out);
        proof {
            assert(out@ =~= self.order());
        }
        out
    }

    pub fn root_children_count(&self) -> (res: usize)
        ensures
            res == self.fanout(),
    {
        self.root.children.len()
    }
}

proof fn lemma_cost_sum_prefix(chains: Seq<Chain>, k: int)
    requires
        0 <= k <= chains.len(),
    ensures
        cost_sum(chains.take(k)) <= cost_sum(chains),
    decreases chains.len() - k,
{
    if k < chains.len() {
        lemma_cost_sum_prefix(chains, k + 1);
        assert(chains.take(k + 1).drop_last() =~= chains.take(k));
    } else {
        assert(chains.take(k) =~= chains);
    }
}

proof fn lemma_chain_at_absent(n: TrieNode, p: Seq<u32>)
    requires
        wf_node(n),
        !has_path(n, p),
    ensures
        chain_at(n, p) is None,
    decreases p.len(),
{
    let q = p.drop_first();
    if exists|k: int| 0 <= k < n.children@.len() && (#[trigger] n.children@[k]).token == Some(p[0]) {
        let k = choose|k: int| 0 <= k < n.children@.len() && (#[trigger] n.children@[k]).token == Some(p[0]);
        lemma_chain_in(n.children@, p[0], q, k);
        lemma_wf_forest_at(n.children@, k);
        if has_path(n.children@[k], q) {
            has_path_intro(n, p, k);
        }
        lemma_chain_at_absent(n.children@[k], q);
    } else {
        lemma_chain_in_none(n.children@, p[0], q);
    }
}

proof fn lemma_last_chain_absent(chains: Seq<Chain>, p: Seq<u32>)
    requires
        !chain_prefix(chains, p),
    ensures
        last_chain(chains, p) is None,
    decreases chains.len(),
{
    if chains.len() > 0 {
        let k = chains.len() - 1;
        if chains.last().tokens@ == p {
            assert(p =~= chains[k].tokens@.take(p.len() as int));
            assert(is_prefix(p, chains[k].tokens@));
        }
        assert(!chain_prefix(chains.drop_last(), p)) by {
            if chain_prefix(chains.drop_last(), p) {
                let j = choose|j: int| 0 <= j < chains.drop_last().len() && is_prefix(p, #[trigger] chains.drop_last()[j].tokens@);
                assert(chains.drop_last()[j] == chains[j]);
            }
        }
        lemma_last_chain_absent(chains.drop_last(), p);
    }
}


// ---------------------------------------------------------------------------
// Prefill under depth-first emission.

/// Length of the longest common prefix of `a` and `b`.
pub open spec fn lcp(a: Seq<u32>, b: Seq<u32>) -> nat
    decreases a.len(),
{
    if a.len() == 0 || b.len() == 0 || a[0] != b[0] {
        0
    } else {
        1 + lcp(a.drop_first(), b.drop_first())
    }
}

/// Tokens prefilled when the token paths `ps` are emitted in order, each
/// reusing the longest prefix it shares with the one before (`prev` for the
/// first).
pub open spec fn prefill(prev: Seq<u32>, ps: Seq<Seq<u32>>) -> int
    decreases ps.len(),
{
    if ps.len() == 0 {
        0
    } else {
        ps[0].len() - lcp(ps[0], prev) + prefill(ps[0], ps.drop_first())
    }
}

/// The token path of each chain of the subtree `n`, whose path is `q`, in
/// depth-first pre-order.
spec fn dfs_paths(n: TrieNode, q: Seq<u32>) -> Seq<Seq<u32>>
    decreases n,
{
    (match n.chain {
        Some(c) => seq![q],
        None => Seq::empty(),
    }) + forest_paths(n.children@, q)
}

spec fn forest_paths(cs: Seq<TrieNode>, q: Seq<u32>) -> Seq<Seq<u32>>
    decreases cs,
{
    if cs.len() == 0 {
        Seq::empty()
    } else {
        dfs_paths(cs[0], q.push(tok(cs[0]))) + forest_paths(cs.drop_first(), q)
    }
}

/// The token on the edge into `n`.
spec fn tok(n: TrieNode) -> u32 {
    match n.token {
        Some(t) => t,
        None => 0,
    }
}

/// Every leaf of the subtree ends a chain.
spec fn full_node(n: TrieNode) -> bool
    decreases n,
{
    (n.children@.len() > 0 || n.chain is Some) && full_forest(n.children@)
}

spec fn full_forest(cs: Seq<TrieNode>) -> bool
    decreases cs,
{
    cs.len() == 0 || (full_node(cs[0]) && full_forest(cs.drop_first()))
}

/// `lcp` agrees with its direct description: the shared prefix, ended by
/// the end of either sequence or by a mismatch.
proof fn lemma_lcp(a: Seq<u32>, b: Seq<u32>, k: int)
    ensures
        lcp(a, b) == k <==> (0 <= k <= a.len() && k <= b.len() && a.take(k) == b.take(k)
            && (k == a.len() || k == b.len() || a[k] != b[k])),
    decreases a.len(),
{
    if a.len() == 0 || b.len() == 0 || a[0] != b[0] {
        if lcp(a, b) == k {
            assert(a.take(0) =~= b.take(0));
        }
        if 0 <= k <= a.len() && k <= b.len() && a.take(k) == b.take(k) && k > 0 {
            assert(a[0] == a.take(k)[0] && b[0] == b.take(k)[0]);
        }
    } else {
        let a1 = a.drop_first();
        let b1 = b.drop_first();
        lemma_lcp(a1, b1, k - 1);
        if lcp(a, b) == k {
            assert(a.take(k) =~= seq![a[0]] + a1.take(k - 1));
            assert(b.take(k) =~= seq![b[0]] + b1.take(k - 1));
        }
        if 0 <= k <= a.len() && k <= b.len() && a.take(k) == b.take(k) && (k == a.len() || k == b.len() || a[k] != b[k]) {
            if k == 0 {
                assert(false);
            }
            assert(a1.take(k - 1) =~= a.take(k).drop_first());
            assert(b1.take(k - 1) =~= b.take(k).drop_first());
            if k < a.len() && k < b.len() {
                assert(a1[k - 1] == a[k] && b1[k - 1] == b[k]);
            }
        }
    }
}

proof fn lemma_lcp_exists(a: Seq<u32>, b: Seq<u32>)
    ensures
        lcp(a, b) <= a.len(),
        lcp(a, b) <= b.len(),
        a.take(lcp(a, b) as int) == b.take(lcp(a, b) as int),
        lcp(a, b) == a.len() || lcp(a, b) == b.len() || a[lcp(a, b) as int] != b[lcp(a, b) as int],
{
    lemma_lcp(a, b, lcp(a, b) as int);
}

/// `prev` shares the first `m` tokens of `q` and no more, and is `q` itself
/// when it shares all of them.
spec fn enters(prev: Seq<u32>, q: Seq<u32>, m: int) -> bool {
    &&& lcp(q, prev) == m
    &&& (m < q.len() || prev == q)
}

/// Entering below `q` by token `t`, `prev` still shares `m` tokens.
proof fn lemma_enters_child(prev: Seq<u32>, q: Seq<u32>, m: int, t: u32)
    requires
        enters(prev, q, m),
    ensures
        enters(prev, q.push(t), m),
        lcp(q.push(t), prev) == m,
{
    lemma_lcp_exists(q, prev);
    let qt = q.push(t);
    assert(qt.take(m) =~= q.take(m));
    if m < q.len() {
        assert(qt[m] == q[m]);
    }
    lemma_lcp(qt, prev, m);
}

/// After a path through `q·t`, the next subtree at `q·t2`, `t2 ≠ t`, shares
/// exactly `q`.
proof fn lemma_enters_sibling(last: Seq<u32>, q: Seq<u32>, t: u32, t2: u32)
    requires
        is_prefix(q.push(t), last),
        t != t2,
    ensures
        enters(last, q.push(t2), q.len() as int),
{
    let d = q.len() as int;
    let q2 = q.push(t2);
    assert(last.take(d) =~= q.push(t).take(d));
    assert(q.push(t).take(d) =~= q);
    assert(q2.take(d) =~= q);
    assert(last[d] == q.push(t)[d]);
    lemma_lcp(q2, last, d);
}

proof fn lemma_prefill_concat(prev: Seq<u32>, a: Seq<Seq<u32>>, b: Seq<Seq<u32>>)
    ensures
        prefill(prev, a + b) == prefill(prev, a) + prefill(if a.len() > 0 { a.last() } else { prev }, b),
    decreases a.len(),
{
    if a.len() == 0 {
        assert(a + b =~= b);
    } else {
        assert((a + b).drop_first() =~= a.drop_first() + b);
        assert((a + b)[0] == a[0]);
        lemma_prefill_concat(a[0], a.drop_first(), b);
        if a.len() > 1 {
            assert(a.drop_first().last() == a.last());
        }
    }
}

proof fn lemma_prefix_up(q: Seq<u32>, t: u32, p: Seq<u32>)
    requires
        is_prefix(q.push(t), p),
    ensures
        is_prefix(q, p),
{
    assert(p.take(q.len() as int) =~= q.push(t).take(q.len() as int));
    assert(q.push(t).take(q.len() as int) =~= q);
}

proof fn lemma_enters_self(q: Seq<u32>)
    ensures
        enters(q, q, q.len() as int),
{
    assert(q.take(q.len() as int) =~= q);
    lemma_lcp(q, q, q.len() as int);
}

/// A full subtree at path `q`, entered after a path that shares `m` tokens
/// of `q`, costs its nodes below `q` plus the `|q| - m` tokens of `q` not
/// yet resident.
proof fn lemma_prefill_node(n: TrieNode, q: Seq<u32>, prev: Seq<u32>, m: int)
    requires
        wf_node(n),
        full_node(n),
        enters(prev, q, m),
    ensures
        prefill(prev, dfs_paths(n, q)) == node_count(n) - 1 + q.len() - m,
        dfs_paths(n, q).len() > 0,
        forall|k: int| 0 <= k < dfs_paths(n, q).len() ==> is_prefix(q, #[trigger] dfs_paths(n, q)[k]),
    decreases n,
{
    let cs = n.children@;
    let own: Seq<Seq<u32>> = match n.chain {
        Some(c) => seq![q],
        None => Seq::empty(),
    };
    let f = forest_paths(cs, q);
    let d = q.len() as int;
    assert(dfs_paths(n, q) == own + f);
    lemma_prefill_concat(prev, own, f);
    assert(node_count(n) == 1 + forest_count(cs));
    if n.chain is Some {
        assert(own.drop_first() =~= Seq::<Seq<u32>>::empty());
        assert(prefill(q, Seq::<Seq<u32>>::empty()) == 0);
        assert(own[0] == q);
        assert(prefill(prev, own) == d - m);
        assert(own.last() == q);
        if cs.len() > 0 {
            lemma_enters_self(q);
            assert forall|i: int| 0 <= i < cs.len() implies #[trigger] enters(q, q.push(tok(cs[i])), d) by {
                lemma_enters_child(q, q, d, tok(cs[i]));
            }
            lemma_prefill_forest(cs, q, q, d);
        } else {
            assert(f =~= Seq::<Seq<u32>>::empty());
        }
        assert(is_prefix(q, q)) by {
            assert(q.take(d) =~= q);
        }
    } else {
        assert(own =~= Seq::<Seq<u32>>::empty());
        assert(cs.len() > 0);
        assert forall|i: int| 0 <= i < cs.len() implies #[trigger] enters(prev, q.push(tok(cs[i])), m) by {
            lemma_enters_child(prev, q, m, tok(cs[i]));
        }
        lemma_lcp_exists(q, prev);
        lemma_prefill_forest(cs, q, prev, m);
    }
    let all = own + f;
    assert forall|k: int| 0 <= k < all.len() implies is_prefix(q, #[trigger] all[k]) by {
        if k < own.len() {
            assert(all[k] == q);
            assert(q.take(d) =~= q);
        } else {
            assert(all[k] == f[k - own.len()]);
        }
    }
}

/// The children `cs` of a node at path `q`, entered after a path that
/// shares `m` tokens with each child's path: they cost all their nodes plus
/// the `|q| - m` tokens of `q` not yet resident.
proof fn lemma_prefill_forest(cs: Seq<TrieNode>, q: Seq<u32>, prev: Seq<u32>, m: int)
    requires
        wf_forest(cs),
        full_forest(cs),
        forall|i: int| 0 <= i < cs.len() ==> (#[trigger] cs[i]).token is Some,
        forall|i: int, j: int| 0 <= i < j < cs.len() ==> (#[trigger] cs[i]).token != (#[trigger] cs[j]).token,
        0 <= m <= q.len(),
        forall|i: int| 0 <= i < cs.len() ==> #[trigger] enters(prev, q.push(tok(cs[i])), m),
    ensures
        prefill(prev, forest_paths(cs, q)) == forest_count(cs) + (if cs.len() > 0 { q.len() - m } else { 0 }),
        cs.len() > 0 ==> forest_paths(cs, q).len() > 0,
        forall|k: int| 0 <= k < forest_paths(cs, q).len() ==> is_prefix(q, #[trigger] forest_paths(cs, q)[k]),
    decreases cs,
{
    if cs.len() > 0 {
        let d = q.len() as int;
        let c0 = cs[0];
        let rest = cs.drop_first();
        let q0 = q.push(tok(c0));
        let p0 = dfs_paths(c0, q0);
        let r = forest_paths(rest, q);
        assert(forest_paths(cs, q) == p0 + r);
        assert(forest_count(cs) == node_count(c0) + forest_count(rest));
        assert(wf_node(c0) && wf_forest(rest));
        assert(full_node(c0) && full_forest(rest));
        assert(enters(prev, q0, m));
        lemma_prefill_node(c0, q0, prev, m);
        lemma_prefill_concat(prev, p0, r);
        let last = p0.last();
        assert(is_prefix(q0, last));
        assert forall|i: int| 0 <= i < rest.len() implies (#[trigger] rest[i]).token is Some by {
            assert(rest[i] == cs[i + 1]);
        }
        assert forall|i: int, j: int| 0 <= i < j < rest.len() implies (#[trigger] rest[i]).token != (#[trigger] rest[j]).token by {
            assert(rest[i] == cs[i + 1] && rest[j] == cs[j + 1]);
        }
        assert forall|i: int| 0 <= i < rest.len() implies #[trigger] enters(last, q.push(tok(rest[i])), d) by {
            assert(rest[i] == cs[i + 1]);
            assert(cs[0].token != cs[i + 1].token);
            assert(cs[0].token is Some && cs[i + 1].token is Some);
            lemma_enters_sibling(last, q, tok(c0), tok(rest[i]));
        }
        lemma_prefill_forest(rest, q, last, d);
        let all = p0 + r;
        assert forall|k: int| 0 <= k < all.len() implies is_prefix(q, #[trigger] all[k]) by {
            if k < p0.len() {
                assert(all[k] == p0[k]);
                assert(is_prefix(q0, p0[k]));
                lemma_prefix_up(q, tok(c0), p0[k]);
            } else {
                assert(all[k] == r[k - p0.len()]);
            }
        }
    } else {
        assert(forest_paths(cs, q) =~= Seq::<Seq<u32>>::empty());
        assert(dfs_forest(cs) =~= Seq::<u32>::empty());
    }
}

/// Path `p` runs below `q` through child `c`, and the chain at its end,
/// seen from `c`, is `id`.
spec fn via_child(c: TrieNode, q: Seq<u32>, p: Seq<u32>, id: u32) -> bool {
    is_prefix(q.push(tok(c)), p) && chain_at(c, p.skip(q.len() + 1int)) == Some(id)
}

/// Path `p` runs below `q` through one of `cs`, and the chain at its end is
/// `id`.
spec fn from_child(cs: Seq<TrieNode>, q: Seq<u32>, p: Seq<u32>, id: u32) -> bool {
    exists|i: int| 0 <= i < cs.len() && #[trigger] via_child(cs[i], q, p, id)
}

/// The `k`-th path of the DFS emission ends at the node holding the `k`-th
/// chain id.
proof fn lemma_paths_node(n: TrieNode, q: Seq<u32>)
    requires
        wf_node(n),
    ensures
        dfs_paths(n, q).len() == dfs(n).len(),
        forall|k: int| 0 <= k < dfs(n).len() ==> is_prefix(q, #[trigger] dfs_paths(n, q)[k])
            && chain_at(n, dfs_paths(n, q)[k].skip(q.len() as int)) == Some(dfs(n)[k]),
    decreases n,
{
    let cs = n.children@;
    let own: Seq<Seq<u32>> = match n.chain {
        Some(c) => seq![q],
        None => Seq::empty(),
    };
    let oid: Seq<u32> = match n.chain {
        Some(c) => seq![c],
        None => Seq::empty(),
    };
    let d = q.len() as int;
    lemma_paths_forest(cs, q);
    let f = forest_paths(cs, q);
    let fi = dfs_forest(cs);
    assert(dfs_paths(n, q) == own + f);
    assert(dfs(n) == oid + fi);
    assert forall|k: int| 0 <= k < dfs(n).len() implies is_prefix(q, #[trigger] dfs_paths(n, q)[k])
        && chain_at(n, dfs_paths(n, q)[k].skip(d)) == Some(dfs(n)[k]) by {
        if k < own.len() {
            assert(dfs_paths(n, q)[k] == q);
            assert(q.take(d) =~= q);
            assert(q.skip(d) =~= Seq::<u32>::empty());
            assert(dfs(n)[k] == oid[k]);
        } else {
            let k2 = k - own.len();
            let p = f[k2];
            assert(dfs_paths(n, q)[k] == p);
            assert(dfs(n)[k] == fi[k2]);
            assert(from_child(cs, q, f[k2], fi[k2]));
            let i = choose|i: int| 0 <= i < cs.len() && #[trigger] via_child(cs[i], q, p, fi[k2]);
            let t = tok(cs[i]);
            assert(cs[i].token == Some(t));
            assert(p.take(d + 1) == q.push(t).take(d + 1));
            assert(q.push(t).take(d + 1) =~= q.push(t));
            assert(p.take(d) =~= q) by {
                assert forall|x: int| 0 <= x < d implies p[x] == q[x] by {
                    assert(p[x] == p.take(d + 1)[x]);
                }
            }
            let r = p.skip(d);
            assert(r[0] == t) by {
                assert(p[d] == p.take(d + 1)[d]);
            }
            assert(r.drop_first() =~= p.skip(d + 1));
            lemma_chain_in(cs, t, r.drop_first(), i);
            assert(chain_at(n, r) == chain_in(cs, r[0], r.drop_first()));
        }
    }
}

proof fn lemma_paths_forest(cs: Seq<TrieNode>, q: Seq<u32>)
    requires
        wf_forest(cs),
    ensures
        forest_paths(cs, q).len() == dfs_forest(cs).len(),
        forall|k: int| 0 <= k < dfs_forest(cs).len() ==> #[trigger] from_child(cs, q, forest_paths(cs, q)[k], dfs_forest(cs)[k]),
    decreases cs,
{
    if cs.len() > 0 {
        let c0 = cs[0];
        let rest = cs.drop_first();
        let q0 = q.push(tok(c0));
        assert(wf_node(c0) && wf_forest(rest));
        lemma_paths_node(c0, q0);
        lemma_paths_forest(rest, q);
        let p0 = dfs_paths(c0, q0);
        let r = forest_paths(rest, q);
        assert(forest_paths(cs, q) == p0 + r);
        assert(dfs_forest(cs) == dfs(c0) + dfs_forest(rest));
        assert forall|k: int| 0 <= k < dfs_forest(cs).len() implies #[trigger] from_child(cs, q, forest_paths(cs, q)[k], dfs_forest(cs)[k]) by {
            if k < p0.len() {
                assert(forest_paths(cs, q)[k] == p0[k]);
                assert(dfs_forest(cs)[k] == dfs(c0)[k]);
                assert(via_child(cs[0], q, forest_paths(cs, q)[k], dfs_forest(cs)[k]));
            } else {
                let k2 = k - p0.len();
                assert(forest_paths(cs, q)[k] == r[k2]);
                assert(dfs_forest(cs)[k] == dfs_forest(rest)[k2]);
                assert(from_child(rest, q, r[k2], dfs_forest(rest)[k2]));
                let i = choose|i: int| 0 <= i < rest.len() && #[trigger] via_child(rest[i], q, r[k2], dfs_forest(rest)[k2]);
                assert(rest[i] == cs[i + 1]);
                assert(via_child(cs[i + 1], q, forest_paths(cs, q)[k], dfs_forest(cs)[k]));
            }
        }
    } else {
        assert(forest_paths(cs, q) =~= Seq::<Seq<u32>>::empty());
        assert(dfs_forest(cs) =~= Seq::<u32>::empty());
    }
}

/// The token paths of the nodes of the tree `n` (the empty path is `n`).
spec fn path_set(n: TrieNode) -> Set<Seq<u32>> {
    Set::new(|p: Seq<u32>| has_path(n, p))
}

/// The non-empty token paths into the trees `cs`.
spec fn forest_set(cs: Seq<TrieNode>) -> Set<Seq<u32>> {
    Set::new(|p: Seq<u32>| p.len() >= 1 && exists|i: int| 0 <= i < cs.len() && cs[i].token == Some(p[0])
        && has_path(cs[i], p.drop_first()))
}

/// The paths of `c` with `c`'s token in front.
spec fn under(c: TrieNode) -> Set<Seq<u32>> {
    path_set(c).map(|q: Seq<u32>| seq![tok(c)] + q)
}

/// A tree has exactly as many distinct token paths as nodes.
proof fn lemma_node_paths(n: TrieNode)
    requires
        wf_node(n),
    ensures
        path_set(n).finite(),
        path_set(n).len() == node_count(n),
    decreases n,
{
    let cs = n.children@;
    lemma_forest_paths(cs);
    let e = Set::<Seq<u32>>::empty().insert(Seq::<u32>::empty());
    assert(path_set(n) =~= e + forest_set(cs)) by {
        assert forall|p: Seq<u32>| path_set(n).contains(p) <==> (e + forest_set(cs)).contains(p) by {
            if p.len() == 0 {
                assert(p =~= Seq::<u32>::empty());
                assert(e.contains(p));
            }
        }
    }
    assert(e.disjoint(forest_set(cs)));
    vstd::set_lib::lemma_set_disjoint_lens(e, forest_set(cs));
}

/// Trees with distinct, present tokens have as many non-empty token paths
/// as nodes.
proof fn lemma_forest_paths(cs: Seq<TrieNode>)
    requires
        wf_forest(cs),
        forall|i: int| 0 <= i < cs.len() ==> (#[trigger] cs[i]).token is Some,
        forall|i: int, j: int| 0 <= i < j < cs.len() ==> (#[trigger] cs[i]).token != (#[trigger] cs[j]).token,
    ensures
        forest_set(cs).finite(),
        forest_set(cs).len() == forest_count(cs),
    decreases cs,
{
    if cs.len() == 0 {
        assert(forest_set(cs) =~= Set::<Seq<u32>>::empty());
    } else {
        let c0 = cs[0];
        let rest = cs.drop_first();
        assert(wf_node(c0) && wf_forest(rest));
        assert forall|i: int| 0 <= i < rest.len() implies (#[trigger] rest[i]).token is Some by {
            assert(rest[i] == cs[i + 1]);
        }
        assert forall|i: int, j: int| 0 <= i < j < rest.len() implies (#[trigger] rest[i]).token != (#[trigger] rest[j]).token by {
            assert(rest[i] == cs[i + 1] && rest[j] == cs[j + 1]);
        }
        lemma_node_paths(c0);
        lemma_forest_paths(rest);
        let t = tok(c0);
        let f = |q: Seq<u32>| seq![t] + q;
        assert(vstd::relations::injective_on(f, path_set(c0))) by {
            assert forall|q1: Seq<u32>, q2: Seq<u32>| path_set(c0).contains(q1) && path_set(c0).contains(q2) && #[trigger] f(q1) == #[trigger] f(q2)
                implies q1 == q2 by {
                assert(f(q1).drop_first() =~= q1);
                assert(f(q2).drop_first() =~= q2);
            }
        }
        vstd::set_lib::lemma_map_size(path_set(c0), under(c0), f);
        assert(forest_set(cs) =~= under(c0) + forest_set(rest)) by {
            assert forall|p: Seq<u32>| forest_set(cs).contains(p) <==> (under(c0) + forest_set(rest)).contains(p) by {
                if forest_set(cs).contains(p) {
                    let i = choose|i: int| 0 <= i < cs.len() && cs[i].token == Some(p[0]) && has_path(cs[i], p.drop_first());
                    if i == 0 {
                        assert(path_set(c0).contains(p.drop_first()));
                        assert(f(p.drop_first()) =~= p);
                        assert(under(c0).contains(p));
                    } else {
                        assert(rest[i - 1] == cs[i]);
                        assert(forest_set(rest).contains(p));
                    }
                }
                if under(c0).contains(p) {
                    let q = choose|q: Seq<u32>| path_set(c0).contains(q) && f(q) == p;
                    assert(p.drop_first() =~= q);
                    assert(p[0] == t);
                    assert(cs[0].token == Some(p[0]));
                    assert(forest_set(cs).contains(p));
                }
                if forest_set(rest).contains(p) {
                    let i = choose|i: int| 0 <= i < rest.len() && rest[i].token == Some(p[0]) && has_path(rest[i], p.drop_first());
                    assert(rest[i] == cs[i + 1]);
                    assert(forest_set(cs).contains(p));
                }
            }
        }
        assert(under(c0).disjoint(forest_set(rest))) by {
            assert forall|p: Seq<u32>| under(c0).contains(p) implies !forest_set(rest).contains(p) by {
                let q = choose|q: Seq<u32>| path_set(c0).contains(q) && f(q) == p;
                assert(p[0] == t);
                if forest_set(rest).contains(p) {
                    let i = choose|i: int| 0 <= i < rest.len() && rest[i].token == Some(p[0]) && has_path(rest[i], p.drop_first());
                    assert(rest[i] == cs[i + 1]);
                    assert(cs[0].token != cs[i + 1].token);
                }
            }
        }
        vstd::set_lib::lemma_set_disjoint_lens(under(c0), forest_set(rest));
    }
}

/// The non-empty prefixes of `s`.
pub open spec fn prefixes(s: Seq<u32>) -> Set<Seq<u32>> {
    Set::new(|t: Seq<u32>| 1 <= t.len() && is_prefix(t, s))
}

/// The non-empty prefixes of any of `ps`.
pub open spec fn all_prefixes(ps: Seq<Seq<u32>>) -> Set<Seq<u32>> {
    Set::new(|t: Seq<u32>| 1 <= t.len() && exists|i: int| 0 <= i < ps.len() && #[trigger] is_prefix(t, ps[i]))
}

/// The prefixes of `s` longer than `l`: there are `|s| - l` of them.
proof fn lemma_long_prefixes(s: Seq<u32>, l: int)
    requires
        0 <= l <= s.len(),
    ensures
        Set::new(|t: Seq<u32>| l < t.len() && is_prefix(t, s)).finite(),
        Set::new(|t: Seq<u32>| l < t.len() && is_prefix(t, s)).len() == s.len() - l,
{
    let r = vstd::set_lib::set_int_range(l + 1, s.len() as int + 1);
    vstd::set_lib::lemma_int_range(l + 1, s.len() as int + 1);
    let f = |k: int| s.take(k);
    let t = Set::new(|t: Seq<u32>| l < t.len() && is_prefix(t, s));
    assert(vstd::relations::injective_on(f, r)) by {
        assert forall|a: int, b: int| r.contains(a) && r.contains(b) && #[trigger] f(a) == #[trigger] f(b) implies a == b by {
            assert(f(a).len() == a && f(b).len() == b);
        }
    }
    assert(r.map(f) =~= t) by {
        assert forall|x: Seq<u32>| r.map(f).contains(x) <==> t.contains(x) by {
            if t.contains(x) {
                assert(r.contains(x.len() as int));
                assert(f(x.len() as int) == x);
            }
            if r.map(f).contains(x) {
                let k = choose|k: int| r.contains(k) && f(k) == x;
                assert(x.len() == k);
            }
        }
    }
    vstd::set_lib::lemma_map_size(r, t, f);
}

/// Emitting `ps` in order, each reusing the prefix it shares with the one
/// before, prefills at least one token per non-empty prefix of `ps` that is
/// not a prefix of `prev`.
proof fn lemma_prefill_lower(prev: Seq<u32>, ps: Seq<Seq<u32>>)
    ensures
        all_prefixes(ps).difference(prefixes(prev)).finite(),
        prefill(prev, ps) >= all_prefixes(ps).difference(prefixes(prev)).len(),
    decreases ps.len(),
{
    let lhs = all_prefixes(ps).difference(prefixes(prev));
    if ps.len() == 0 {
        assert(lhs =~= Set::<Seq<u32>>::empty());
    } else {
        let p0 = ps[0];
        let rest = ps.drop_first();
        let l = lcp(p0, prev) as int;
        lemma_lcp(p0, prev, l);
        lemma_prefill_lower(p0, rest);
        lemma_long_prefixes(p0, l);
        let t = Set::new(|t: Seq<u32>| l < t.len() && is_prefix(t, p0));
        let a = all_prefixes(rest).difference(prefixes(p0));
        assert(lhs.subset_of(t.union(a))) by {
            assert forall|x: Seq<u32>| lhs.contains(x) implies t.union(a).contains(x) by {
                let i = choose|i: int| 0 <= i < ps.len() && #[trigger] is_prefix(x, ps[i]);
                if is_prefix(x, p0) {
                    if x.len() <= l {
                        assert(x =~= prev.take(x.len() as int)) by {
                            assert(p0.take(l).take(x.len() as int) =~= p0.take(x.len() as int));
                            assert(prev.take(l).take(x.len() as int) =~= prev.take(x.len() as int));
                        }
                        assert(prefixes(prev).contains(x));
                    }
                    assert(t.contains(x));
                } else {
                    assert(i != 0);
                    assert(rest[i - 1] == ps[i]);
                    assert(all_prefixes(rest).contains(x));
                    assert(a.contains(x));
                }
            }
        }
        vstd::set_lib::lemma_len_union(t, a);
        vstd::set_lib::lemma_len_subset(lhs, t.union(a));
    }
}

/// Depth-first order is optimal: emitting any sequence of token paths that
/// includes every chain's tokens prefills at least one token per trie node
/// below the root, which is exactly what depth-first pre-order pays (see
/// `lemma_dfs_prefill`).
pub proof fn lemma_prefill_lower_bound(trie: PromptTrie, chains: Seq<Chain>, ps: Seq<Seq<u32>>)
    requires
        trie.wf(),
        forall|p: Seq<u32>| #[trigger] trie.has(p) <==> chain_prefix(chains, p),
        forall|i: int| 0 <= i < chains.len() ==> exists|k: int| 0 <= k < ps.len() && ps[k] == (#[trigger] chains[i]).tokens@,
    ensures
        prefill(Seq::empty(), ps) >= trie.size() - 1,
{
    let e = Seq::<u32>::empty();
    trie.lemma_size_counts_paths();
    lemma_prefill_lower(e, ps);
    let h = Set::new(|p: Seq<u32>| trie.has(p));
    let h1 = h.remove(e);
    assert(prefixes(e) =~= Set::<Seq<u32>>::empty());
    assert(all_prefixes(ps).difference(prefixes(e)) =~= all_prefixes(ps));
    assert(h1.subset_of(all_prefixes(ps))) by {
        assert forall|p: Seq<u32>| h1.contains(p) implies all_prefixes(ps).contains(p) by {
            assert(trie.has(p));
            assert(p.len() >= 1) by {
                if p.len() == 0 {
                    assert(p =~= e);
                }
            }
            let i = choose|i: int| 0 <= i < chains.len() && is_prefix(p, #[trigger] chains[i].tokens@);
            let k = choose|k: int| 0 <= k < ps.len() && ps[k] == chains[i].tokens@;
            assert(is_prefix(p, ps[k]));
        }
    }
    vstd::set_lib::lemma_len_subset(h1, all_prefixes(ps));
    assert(trie.has(e));
    assert(h.contains(e));
}

/// Emitting the chains in depth-first pre-order, each prompt reusing the
/// tokens it shares with the one before, prefills exactly one token per trie
/// node below the root: every shared prefix is paid once. The `k`-th chain
/// of `order` is the one recorded at the `k`-th path.
pub proof fn lemma_dfs_prefill(trie: PromptTrie)
    requires
        trie.wf(),
        trie.full(),
    ensures
        trie.order_paths().len() == trie.order().len(),
        forall|k: int| 0 <= k < trie.order().len() ==> #[trigger] trie.chain_of(trie.order_paths()[k]) == Some(trie.order()[k]),
        prefill(Seq::empty(), trie.order_paths()) == trie.size() - 1,
{
    let root = trie.root;
    let e = Seq::<u32>::empty();
    lemma_paths_node(root, e);
    assert forall|k: int| 0 <= k < trie.order().len() implies #[trigger] trie.chain_of(trie.order_paths()[k]) == Some(trie.order()[k]) by {
        assert(trie.order_paths()[k].skip(0) =~= trie.order_paths()[k]);
    }
    if root.children@.len() > 0 || root.chain is Some {
        assert(full_node(root));
        assert(e.take(0) =~= e);
        lemma_lcp(e, e, 0);
        assert(enters(e, e, 0));
        lemma_prefill_node(root, e, e, 0);
    } else {
        assert(forest_paths(root.children@, e) =~= Seq::<Seq<u32>>::empty());
        assert(dfs_paths(root, e) =~= Seq::<Seq<u32>>::empty());
        assert(forest_count(root.children@) == 0);
    }
}

// ---------------------------------------------------------------------------
// Balanced partition of the chains among workers.

/// `cost` may be called on every chain id and gives one value for each.
pub open spec fn cost_fn<F: Fn(u32) -> u32>(cost: F) -> bool {
    &&& forall|id: u32| #[trigger] cost.requires((id,))
    &&& forall|id: u32, a: u32, b: u32|
        #![trigger cost.ensures((id,), a), cost.ensures((id,), b)]
        cost.ensures((id,), a) && cost.ensures((id,), b) ==> a == b
}

/// The weight `cost` gives chain `id`.
pub open spec fn cost_of<F: Fn(u32) -> u32>(cost: F, id: u32) -> u32 {
    choose|v: u32| cost.ensures((id,), v)
}

/// Total weight of a sequence of chain ids.
pub open spec fn weight<F: Fn(u32) -> u32>(cost: F, s: Seq<u32>) -> int
    decreases s.len(),
{
    if s.len() == 0 {
        0
    } else {
        weight(cost, s.drop_last()) + cost_of(cost, s.last())
    }
}

/// The parts, one after another.
pub open spec fn flat(parts: Seq<Vec<u32>>) -> Seq<u32>
    decreases parts.len(),
{
    if parts.len() == 0 {
        Seq::empty()
    } else {
        flat(parts.drop_last()) + parts.last()@
    }
}

/// The least part weight a balanced split into `w` parts aims at:
/// `⌈total / w⌉`.
pub open spec fn part_target(total: int, w: int) -> int {
    (total + w - 1) / w
}

/// At most one part weighs less than `target`.
pub open spec fn one_light<F: Fn(u32) -> u32>(cost: F, parts: Seq<Vec<u32>>, target: int) -> bool {
    forall|p: int, q: int| 0 <= p < parts.len() && 0 <= q < parts.len() && p != q
        && #[trigger] weight(cost, parts[p]@) < target ==> #[trigger] weight(cost, parts[q]@) >= target
}

proof fn lemma_cost_call<F: Fn(u32) -> u32>(cost: F, id: u32, v: u32)
    requires
        cost_fn(cost),
        cost.ensures((id,), v),
    ensures
        cost_of(cost, id) == v,
{
    let c = cost_of(cost, id);
    assert(cost.ensures((id,), c));
}

proof fn lemma_weight_concat<F: Fn(u32) -> u32>(cost: F, a: Seq<u32>, b: Seq<u32>)
    ensures
        weight(cost, a + b) == weight(cost, a) + weight(cost, b),
        weight(cost, b) >= 0,
    decreases b.len(),
{
    if b.len() == 0 {
        assert(a + b =~= a);
    } else {
        lemma_weight_concat(cost, a, b.drop_last());
        assert((a + b).drop_last() =~= a + b.drop_last());
        assert((a + b).last() == b.last());
    }
}

proof fn lemma_flat_concat(a: Seq<Vec<u32>>, b: Seq<Vec<u32>>)
    ensures
        flat(a + b) == flat(a) + flat(b),
    decreases b.len(),
{
    if b.len() == 0 {
        assert(a + b =~= a);
        assert(flat(a) + flat(b) =~= flat(a));
    } else {
        lemma_flat_concat(a, b.drop_last());
        assert((a + b).drop_last() =~= a + b.drop_last());
        assert((a + b).last() == b.last());
        assert(flat(a + b) =~= flat(a) + flat(b));
    }
}

/// The chain of a node, as a sequence of none or one id.
spec fn own(n: TrieNode) -> Seq<u32> {
    match n.chain {
        Some(c) => seq![c],
        None => Seq::empty(),
    }
}

proof fn lemma_dfs_forest_split(cs: Seq<TrieNode>, k: int)
    requires
        0 <= k <= cs.len(),
    ensures
        dfs_forest(cs) == dfs_forest(cs.take(k)) + dfs_forest(cs.skip(k)),
    decreases k,
{
    if k == 0 {
        assert(cs.skip(0) =~= cs);
        assert(dfs_forest(cs.take(0)) =~= Seq::<u32>::empty());
        assert(dfs_forest(cs.take(0)) + dfs_forest(cs) =~= dfs_forest(cs));
    } else {
        let d = cs.drop_first();
        lemma_dfs_forest_split(d, k - 1);
        assert(cs.take(k).drop_first() =~= d.take(k - 1));
        assert(cs.take(k)[0] == cs[0]);
        assert(d.skip(k - 1) =~= cs.skip(k));
        assert(dfs_forest(cs.take(k)) =~= dfs(cs[0]) + dfs_forest(d.take(k - 1)));
        assert(dfs_forest(cs) =~= dfs(cs[0]) + dfs_forest(d));
    }
}

/// The weight of the first `k + 1` children's chains, and that it stays
/// within the weight of the whole node.
proof fn lemma_prefix_weight<F: Fn(u32) -> u32>(cost: F, n: TrieNode, k: int)
    requires
        0 <= k < n.children@.len(),
    ensures
        own(n) + dfs_forest(n.children@.take(k + 1)) == (own(n) + dfs_forest(n.children@.take(k))) + dfs(n.children@[k]),
        weight(cost, own(n) + dfs_forest(n.children@.take(k + 1))) <= weight(cost, dfs(n)),
        dfs(n) == own(n) + dfs_forest(n.children@),
{
    let cs = n.children@;
    lemma_dfs_forest_take(cs, k);
    assert(own(n) + dfs_forest(cs.take(k + 1)) =~= (own(n) + dfs_forest(cs.take(k))) + dfs(cs[k]));
    lemma_dfs_forest_split(cs, k + 1);
    assert(dfs(n) =~= own(n) + dfs_forest(cs));
    assert(dfs(n) =~= (own(n) + dfs_forest(cs.take(k + 1))) + dfs_forest(cs.skip(k + 1)));
    lemma_weight_concat(cost, own(n) + dfs_forest(cs.take(k + 1)), dfs_forest(cs.skip(k + 1)));
}

impl TrieNode {
    /// Total weight of the chains in this subtree.
    fn subtree_leaf_cost<F: Fn(u32) -> u32>(&self, cost: &F) -> (s: u32)
        requires
            cost_fn(*cost),
            weight(*cost, dfs(*self)) <= u32::MAX,
        ensures
            s == weight(*cost, dfs(*self)),
        decreases *self,
    {
        let mut s: u32 = match self.chain {
            Some(id) => {
                let v = (*cost)(id);
                proof {
                    lemma_cost_call(*cost, id, v);
                    assert(own(*self).drop_last() =~= Seq::<u32>::empty());
                    assert(weight(*cost, Seq::<u32>::empty()) == 0);
                    assert(weight(*cost, own(*self)) == v);
                }
                v
            },
            None => {
                proof {
                    assert(own(*self) =~= Seq::<u32>::empty());
                }
                0
            },
        };
        let mut i: usize = 0;
        proof {
            assert(dfs_forest(self.children@.take(0)) =~= Seq::<u32>::empty());
            assert(own(*self) + dfs_forest(self.children@.take(0)) =~= own(*self));
        }
        while i < self.children.len()
            invariant
                cost_fn(*cost),
                weight(*cost, dfs(*self)) <= u32::MAX,
                i <= self.children@.len(),
                s == weight(*cost, own(*self) + dfs_forest(self.children@.take(i as int))),
            decreases self.children@.len() - i,
        {
            proof {
                lemma_prefix_weight(*cost, *self, i as int);
                lemma_weight_concat(*cost, own(*self) + dfs_forest(self.children@.take(i as int)), dfs(self.children@[i as int]));
                lemma_weight_concat(*cost, dfs(self.children@[i as int]), Seq::<u32>::empty());
                assert(dfs(self.children@[i as int]) + Seq::<u32>::empty() =~= dfs(self.children@[i as int]));
            }
            let c = self.children[i].subtree_leaf_cost(cost);
            s = s + c;
            i = i + 1;
        }
        proof {
            assert(self.children@.take(self.children@.len() as int) =~= self.children@);
            assert(dfs(*self) =~= own(*self) + dfs_forest(self.children@));
        }
        s
    }
}

/// The multiset of ids in `a` and `b` together stays within `c`.
spec fn within(a: Seq<u32>, b: Seq<u32>, c: Seq<u32>) -> bool {
    a.to_multiset().add(b.to_multiset()).subset_of(c.to_multiset())
}

proof fn lemma_ms_empty(s: Seq<u32>)
    requires
        s.len() == 0,
    ensures
        s.to_multiset() =~= vstd::multiset::Multiset::<u32>::empty(),
{
    broadcast use vstd::seq_lib::to_multiset_len, vstd::multiset::lemma_multiset_empty_len;
    assert(s.to_multiset().len() == 0);
}

proof fn lemma_weight_nonneg<F: Fn(u32) -> u32>(cost: F, s: Seq<u32>)
    ensures
        weight(cost, s) >= 0,
    decreases s.len(),
{
    if s.len() > 0 {
        lemma_weight_nonneg(cost, s.drop_last());
    }
}

/// Two disjoint pieces of work, put side by side; `keep_l` says whether
/// the second piece's carried chains `l` are kept, and where: `cut` as a
/// part (with the parts `s + c`), else carried on with `a`.
proof fn lemma_within_join(s: Seq<u32>, a: Seq<u32>, p: Seq<u32>, c: Seq<u32>, l: Seq<u32>, d: Seq<u32>)
    requires
        within(s, a, p),
        within(c, l, d),
    ensures
        within(s + c, a, p + d),
        within((s + c) + l, a, p + d),
        within(s + c, a + l, p + d),
{
    broadcast use vstd::multiset::group_multiset_axioms, vstd::seq_lib::lemma_multiset_commutative;
    assert forall|v: u32| (s + c).to_multiset().add(a.to_multiset()).count(v) <= #[trigger] (p + d).to_multiset().count(v) by {
        assert(s.to_multiset().add(a.to_multiset()).count(v) <= p.to_multiset().count(v));
        assert(c.to_multiset().add(l.to_multiset()).count(v) <= d.to_multiset().count(v));
    }
    assert forall|v: u32| ((s + c) + l).to_multiset().add(a.to_multiset()).count(v) <= #[trigger] (p + d).to_multiset().count(v) by {
        assert(s.to_multiset().add(a.to_multiset()).count(v) <= p.to_multiset().count(v));
        assert(c.to_multiset().add(l.to_multiset()).count(v) <= d.to_multiset().count(v));
    }
    assert forall|v: u32| (s + c).to_multiset().add((a + l).to_multiset()).count(v) <= #[trigger] (p + d).to_multiset().count(v) by {
        assert(s.to_multiset().add(a.to_multiset()).count(v) <= p.to_multiset().count(v));
        assert(c.to_multiset().add(l.to_multiset()).count(v) <= d.to_multiset().count(v));
    }
}

/// The carried chains become a part.
proof fn lemma_within_close(s: Seq<u32>, a: Seq<u32>, p: Seq<u32>)
    requires
        within(s, a, p),
    ensures
        within(s + a, Seq::<u32>::empty(), p),
{
    broadcast use vstd::multiset::group_multiset_axioms, vstd::seq_lib::lemma_multiset_commutative;
    lemma_ms_empty(Seq::<u32>::empty());
    assert forall|v: u32| (s + a).to_multiset().add(Seq::<u32>::empty().to_multiset()).count(v) <= #[trigger] p.to_multiset().count(v) by {
        assert(s.to_multiset().add(a.to_multiset()).count(v) <= p.to_multiset().count(v));
    }
}

/// Cuts the subtree of `node` bottom-up: whenever what a node carries up
/// (its chain and what its children carried) weighs at least `target`, it
/// becomes a part of its own. Returns the weight and the chains carried
/// further up. Children that carry nothing up are skipped, along with any
/// chains of weight 0 they hold.
fn part_sub<F: Fn(u32) -> u32>(node: &TrieNode, cost: &F, target: u32, parts: &mut Vec<Vec<u32>>) -> (res: (u32, Vec<u32>))
    requires
        cost_fn(*cost),
        target >= 1,
        weight(*cost, dfs(*node)) <= u32::MAX,
    ensures
        final(parts)@.len() >= old(parts)@.len(),
        final(parts)@.subrange(0, old(parts)@.len() as int) == old(parts)@,
        forall|t: int| old(parts)@.len() <= t < final(parts)@.len() ==> #[trigger] weight(*cost, final(parts)@[t]@) >= target,
        res.0 < target,
        res.0 == weight(*cost, res.1@),
        within(flat(final(parts)@.subrange(old(parts)@.len() as int, final(parts)@.len() as int)), res.1@, dfs(*node)),
        weight(*cost, flat(final(parts)@.subrange(old(parts)@.len() as int, final(parts)@.len() as int))) + res.0
            == weight(*cost, dfs(*node)),
    decreases *node,
{
    broadcast use vstd::multiset::group_multiset_axioms, vstd::seq_lib::lemma_multiset_commutative;
    let ghost p0 = parts@;
    let ghost lo = p0.len() as int;
    let mut acc_w: u32 = 0;
    let mut acc_leaves: Vec<u32> = Vec::new();
    match node.chain {
        Some(id) => {
            let v = (*cost)(id);
            proof {
                lemma_cost_call(*cost, id, v);
            }
            acc_w = v;
            acc_leaves.push(id);
        },
        None => {},
    }
    proof {
        assert(acc_leaves@ =~= own(*node));
        assert(own(*node).len() == 0 || own(*node).drop_last() =~= Seq::<u32>::empty());
        assert(weight(*cost, Seq::<u32>::empty()) == 0);
        assert(acc_w == weight(*cost, own(*node)));
        assert(dfs_forest(node.children@.take(0)) =~= Seq::<u32>::empty());
        assert(own(*node) + dfs_forest(node.children@.take(0)) =~= own(*node));
        assert(parts@.subrange(lo, lo) =~= Seq::<Vec<u32>>::empty());
        assert(flat(parts@.subrange(lo, lo)) =~= Seq::<u32>::empty());
        assert(parts@.subrange(0, lo) =~= p0);
        assert(within(flat(parts@.subrange(lo, lo)), acc_leaves@, own(*node))) by {
            lemma_ms_empty(flat(parts@.subrange(lo, lo)));
            assert forall|v: u32| flat(parts@.subrange(lo, lo)).to_multiset().add(acc_leaves@.to_multiset()).count(v)
                <= #[trigger] own(*node).to_multiset().count(v) by {
            }
        }
        if node.children@.len() > 0 {
            lemma_prefix_weight(*cost, *node, 0);
        } else {
            assert(dfs(*node) =~= own(*node) + dfs_forest(node.children@));
            assert(dfs(*node) =~= own(*node));
        }
        lemma_weight_concat(*cost, own(*node), dfs_forest(node.children@));
        assert(dfs(*node) =~= own(*node) + dfs_forest(node.children@));
    }
    let mut i: usize = 0;
    while i < node.children.len()
        invariant
            cost_fn(*cost),
            target >= 1,
            weight(*cost, dfs(*node)) <= u32::MAX,
            lo == p0.len(),
            i <= node.children@.len(),
            parts@.len() >= lo,
            parts@.subrange(0, lo) == p0,
            forall|t: int| lo <= t < parts@.len() ==> #[trigger] weight(*cost, parts@[t]@) >= target,
            acc_w == weight(*cost, acc_leaves@),
            within(flat(parts@.subrange(lo, parts@.len() as int)), acc_leaves@,
                own(*node) + dfs_forest(node.children@.take(i as int))),
            weight(*cost, flat(parts@.subrange(lo, parts@.len() as int))) + acc_w
                == weight(*cost, own(*node) + dfs_forest(node.children@.take(i as int))),
            weight(*cost, own(*node) + dfs_forest(node.children@.take(i as int))) <= weight(*cost, dfs(*node)),
        decreases node.children@.len() - i,
    {
        let ghost pb = parts@;
        let ghost sb = pb.subrange(lo, pb.len() as int);
        let ghost ab = acc_leaves@;
        let ghost pi = own(*node) + dfs_forest(node.children@.take(i as int));
        let ghost ch = node.children@[i as int];
        proof {
            lemma_prefix_weight(*cost, *node, i as int);
            lemma_weight_concat(*cost, pi, dfs(ch));
            lemma_weight_nonneg(*cost, pi);
            assert(weight(*cost, dfs(ch)) <= u32::MAX);
        }
        let (cw, cl) = part_sub(&node.children[i], cost, target, parts);
        let ghost pa = parts@;
        let ghost cn = pa.subrange(pb.len() as int, pa.len() as int);
        let ghost pn = own(*node) + dfs_forest(node.children@.take(i + 1));
        proof {
            assert(pa.subrange(lo, pa.len() as int) =~= sb + cn) by {
                assert forall|t: int| 0 <= t < sb.len() implies pa[lo + t] == sb[t] by {
                    assert(pa[lo + t] == pa.subrange(0, pb.len() as int)[lo + t]);
                }
            }
            lemma_flat_concat(sb, cn);
            lemma_weight_concat(*cost, flat(sb), flat(cn));
            assert(pn == pi + dfs(ch));
            lemma_within_join(flat(sb), ab, pi, flat(cn), cl@, dfs(ch));
            lemma_weight_nonneg(*cost, flat(sb));
            lemma_weight_nonneg(*cost, flat(cn));
            assert(flat(pa.subrange(lo, pa.len() as int)) == flat(sb) + flat(cn));
            assert(weight(*cost, pi) + weight(*cost, dfs(ch)) == weight(*cost, pn));
            assert(acc_w + cw <= weight(*cost, pn));
            assert(pa.subrange(0, lo) =~= p0) by {
                assert forall|t: int| 0 <= t < lo implies pa[t] == p0[t] by {
                    assert(pa[t] == pa.subrange(0, pb.len() as int)[t]);
                    assert(pb[t] == pb.subrange(0, lo)[t]);
                }
            }
            assert forall|t: int| lo <= t < pa.len() implies #[trigger] weight(*cost, pa[t]@) >= target by {
                if t < pb.len() {
                    assert(pa[t] == pa.subrange(0, pb.len() as int)[t]);
                }
            }
        }
        if cw == 0 {
            proof {
                assert(within(flat(sb + cn), ab, pn));
            }
        } else if cw >= target {
            let ghost pc = parts@;
            parts.push(cl);
            proof {
                assert(parts@.subrange(lo, parts@.len() as int) =~= (sb + cn).push(cl));
                assert((sb + cn).push(cl).drop_last() =~= sb + cn);
                assert(flat((sb + cn).push(cl)) =~= flat(sb + cn) + cl@);
                lemma_weight_concat(*cost, flat(sb + cn), cl@);
                assert(parts@.subrange(0, lo) =~= p0) by {
                    assert forall|t: int| 0 <= t < lo implies parts@[t] == p0[t] by {
                        assert(parts@[t] == pc[t]);
                        assert(pc[t] == pc.subrange(0, lo)[t]);
                    }
                }
                assert forall|t: int| lo <= t < parts@.len() implies #[trigger] weight(*cost, parts@[t]@) >= target by {
                    if t < pc.len() {
                        assert(parts@[t] == pc[t]);
                    }
                }
                assert(within(flat((sb + cn).push(cl)), ab, pn));
            }
        } else {
            let ghost clv = cl@;
            let mut cl = cl;
            acc_w = acc_w.saturating_add(cw);
            acc_leaves.append(&mut cl);
            proof {
                assert(acc_leaves@ == ab + clv);
                lemma_weight_concat(*cost, ab, clv);
                assert(within(flat(sb + cn), ab + clv, pn));
            }
        }
        i = i + 1;
    }
    proof {
        assert(node.children@.take(node.children@.len() as int) =~= node.children@);
        assert(dfs(*node) =~= own(*node) + dfs_forest(node.children@));
    }
    if acc_w >= target {
        let ghost pb = parts@;
        let ghost sb = pb.subrange(lo, pb.len() as int);
        let ghost al = acc_leaves@;
        parts.push(acc_leaves);
        proof {
            let pf = parts@;
            assert(pf.subrange(lo, pf.len() as int).drop_last() =~= sb);
            assert(pf.subrange(lo, pf.len() as int).last()@ == al);
            assert(flat(pf.subrange(lo, pf.len() as int)) =~= flat(sb) + al);
            lemma_weight_concat(*cost, flat(sb), al);
            assert(pf.subrange(0, lo) =~= p0) by {
                assert forall|t: int| 0 <= t < lo implies pf[t] == p0[t] by {
                    assert(pf[t] == pb[t]);
                    assert(pb[t] == pb.subrange(0, lo)[t]);
                }
            }
            assert forall|t: int| lo <= t < pf.len() implies #[trigger] weight(*cost, pf[t]@) >= target by {
                if t < pb.len() {
                    assert(pf[t] == pb[t]);
                }
            }
            assert(weight(*cost, Seq::<u32>::empty()) == 0);
            lemma_within_close(flat(sb), al, dfs(*node));
            assert(within(flat(pf.subrange(lo, pf.len() as int)), Seq::<u32>::empty(), dfs(*node)));
        }
        (0, Vec::new())
    } else {
        (acc_w, acc_leaves)
    }
}

/// What the parts keep while they are sorted and merged: none is empty, at
/// most one weighs under `target`, and together they hold the ids `ids`
/// with total weight `total`.
spec fn parts_ok<F: Fn(u32) -> u32>(cost: F, parts: Seq<Vec<u32>>, target: int, ids: vstd::multiset::Multiset<u32>, total: int) -> bool {
    &&& forall|p: int| 0 <= p < parts.len() ==> #[trigger] parts[p]@.len() > 0
    &&& one_light(cost, parts, target)
    &&& flat(parts).to_multiset() == ids
    &&& weight(cost, flat(parts)) == total
}

proof fn lemma_flat_two(x: Vec<u32>, y: Vec<u32>)
    ensures
        flat(seq![x, y]) == x@ + y@,
{
    let s = seq![x, y];
    assert(s.drop_last() =~= seq![x]);
    assert(s.last() == y);
    lemma_flat_one(x);
}

proof fn lemma_flat_one(x: Vec<u32>)
    ensures
        flat(seq![x]) == x@,
{
    assert(seq![x].drop_last() =~= Seq::<Vec<u32>>::empty());
    assert(seq![x].last() == x);
    assert(flat(Seq::<Vec<u32>>::empty()) =~= Seq::<u32>::empty());
    assert(flat(seq![x]) =~= x@);
}

/// Swapping two neighbouring parts keeps what `parts_ok` counts.
proof fn lemma_swap_ok<F: Fn(u32) -> u32>(cost: F, s: Seq<Vec<u32>>, i: int, target: int, ids: vstd::multiset::Multiset<u32>, total: int)
    requires
        parts_ok(cost, s, target, ids, total),
        0 <= i,
        i + 1 < s.len(),
    ensures
        parts_ok(cost, s.update(i, s[i + 1]).update(i + 1, s[i]), target, ids, total),
{
    broadcast use vstd::multiset::group_multiset_axioms, vstd::seq_lib::lemma_multiset_commutative;
    let s2 = s.update(i, s[i + 1]).update(i + 1, s[i]);
    let a = s.take(i);
    let b = s.skip(i + 2);
    assert(s =~= a + seq![s[i], s[i + 1]] + b);
    assert(s2 =~= a + seq![s[i + 1], s[i]] + b);
    lemma_flat_concat(a + seq![s[i], s[i + 1]], b);
    lemma_flat_concat(a, seq![s[i], s[i + 1]]);
    lemma_flat_concat(a + seq![s[i + 1], s[i]], b);
    lemma_flat_concat(a, seq![s[i + 1], s[i]]);
    lemma_flat_two(s[i], s[i + 1]);
    lemma_flat_two(s[i + 1], s[i]);
    let x = s[i]@;
    let y = s[i + 1]@;
    assert(flat(s) == (flat(a) + (x + y)) + flat(b));
    assert(flat(s2) == (flat(a) + (y + x)) + flat(b));
    assert(flat(s2).to_multiset() =~= flat(s).to_multiset());
    lemma_weight_concat(cost, flat(a) + (x + y), flat(b));
    lemma_weight_concat(cost, flat(a) + (y + x), flat(b));
    lemma_weight_concat(cost, flat(a), x + y);
    lemma_weight_concat(cost, flat(a), y + x);
    lemma_weight_concat(cost, x, y);
    lemma_weight_concat(cost, y, x);
    assert forall|p: int| 0 <= p < s2.len() implies #[trigger] s2[p]@.len() > 0 by {
        if p == i {
            assert(s2[p] == s[i + 1]);
        } else if p == i + 1 {
            assert(s2[p] == s[i]);
        } else {
            assert(s2[p] == s[p]);
        }
    }
    assert forall|p: int, q: int| 0 <= p < s2.len() && 0 <= q < s2.len() && p != q
        && #[trigger] weight(cost, s2[p]@) < target implies #[trigger] weight(cost, s2[q]@) >= target by {
        let pp = if p == i { i + 1 } else if p == i + 1 { i } else { p };
        let qq = if q == i { i + 1 } else if q == i + 1 { i } else { q };
        assert(s2[p] == s[pp] && s2[q] == s[qq]);
        assert(weight(cost, s[pp]@) < target);
    }
}

/// The parts of `s` that hold exactly `l` chains, in their order in `s`.
pub open spec fn of_len(s: Seq<Vec<u32>>, l: nat) -> Seq<Vec<u32>> {
    s.filter(|v: Vec<u32>| v@.len() == l)
}

/// The parts are in nondecreasing order of length.
pub open spec fn sorted_by_len(s: Seq<Vec<u32>>) -> bool {
    forall|a: int, b: int| 0 <= a < b < s.len() ==> #[trigger] s[a]@.len() <= #[trigger] s[b]@.len()
}

/// Swapping two neighbours of different lengths keeps the order within
/// each length.
proof fn lemma_swap_of_len(s: Seq<Vec<u32>>, i: int, l: nat)
    requires
        0 <= i < s.len() - 1,
        s[i]@.len() != s[i + 1]@.len(),
    ensures
        of_len(s.update(i, s[i + 1]).update(i + 1, s[i]), l) == of_len(s, l),
{
    let p = |v: Vec<u32>| v@.len() == l;
    let x = s[i];
    let y = s[i + 1];
    let a = s.take(i);
    let b = s.skip(i + 2);
    let s2 = s.update(i, s[i + 1]).update(i + 1, s[i]);
    assert(s =~= (a + seq![x, y]) + b);
    assert(s2 =~= (a + seq![y, x]) + b);
    Seq::filter_distributes_over_add(a + seq![x, y], b, p);
    Seq::filter_distributes_over_add(a, seq![x, y], p);
    Seq::filter_distributes_over_add(a + seq![y, x], b, p);
    Seq::filter_distributes_over_add(a, seq![y, x], p);
    reveal(Seq::filter);
    assert(seq![x, y].drop_last() =~= seq![x]);
    assert(seq![y, x].drop_last() =~= seq![y]);
    assert(seq![x].drop_last() =~= Seq::<Vec<u32>>::empty());
    assert(seq![y].drop_last() =~= Seq::<Vec<u32>>::empty());
    let e = Seq::<Vec<u32>>::empty();
    assert(e.filter(p) == e);
    assert(seq![x].last() == x && seq![y].last() == y);
    assert(seq![x, y].last() == y && seq![y, x].last() == x);
    assert(seq![x].filter(p) == (if p(x) { e.filter(p).push(x) } else { e.filter(p) }));
    assert(seq![y].filter(p) == (if p(y) { e.filter(p).push(y) } else { e.filter(p) }));
    assert(seq![x, y].filter(p) == (if p(y) { seq![x].filter(p).push(y) } else { seq![x].filter(p) }));
    assert(seq![y, x].filter(p) == (if p(x) { seq![y].filter(p).push(x) } else { seq![y].filter(p) }));
    assert(!(p(x) && p(y)));
    assert(seq![x, y].filter(p) =~= seq![y, x].filter(p));
}

/// Sorts the parts by length, stably (insertion sort): the result is in
/// nondecreasing order of length, and the parts of each length keep their
/// order.
fn sort_by_len<F: Fn(u32) -> u32>(
    parts: &mut Vec<Vec<u32>>,
    Ghost(cost): Ghost<F>,
    Ghost(target): Ghost<int>,
    Ghost(ids): Ghost<vstd::multiset::Multiset<u32>>,
    Ghost(total): Ghost<int>,
)
    requires
        parts_ok(cost, old(parts)@, target, ids, total),
    ensures
        final(parts)@.len() == old(parts)@.len(),
        parts_ok(cost, final(parts)@, target, ids, total),
        sorted_by_len(final(parts)@),
        forall|l: nat| #[trigger] of_len(final(parts)@, l) == of_len(old(parts)@, l),
{
    let ghost orig = parts@;
    let n = parts.len();
    let mut i: usize = 1;
    while i < n
        invariant
            parts@.len() == n,
            parts_ok(cost, parts@, target, ids, total),
            i >= 1,
            forall|a: int, b: int| 0 <= a < b < n && b < i ==> #[trigger] parts@[a]@.len() <= #[trigger] parts@[b]@.len(),
            forall|l: nat| #[trigger] of_len(parts@, l) == of_len(orig, l),
        decreases n - i,
    {
        let mut j: usize = i;
        while j > 0 && parts[j - 1].len() > parts[j].len()
            invariant
                parts@.len() == n,
                i < n,
                j <= i,
                parts_ok(cost, parts@, target, ids, total),
                forall|a: int, b: int| 0 <= a < b <= i && a != j && b != j
                    ==> #[trigger] parts@[a]@.len() <= #[trigger] parts@[b]@.len(),
                forall|b: int| j < b <= i ==> parts@[j as int]@.len() <= #[trigger] parts@[b]@.len(),
                forall|l: nat| #[trigger] of_len(parts@, l) == of_len(orig, l),
            decreases j,
        {
            let ghost s = parts@;
            let x = parts.remove(j);
            parts.insert(j - 1, x);
            proof {
                assert(parts@ =~= s.update(j - 1, s[j as int]).update(j as int, s[j - 1]));
                lemma_swap_ok(cost, s, j - 1, target, ids, total);
                assert forall|l: nat| #[trigger] of_len(parts@, l) == of_len(orig, l) by {
                    lemma_swap_of_len(s, j - 1, l);
                }
                assert forall|a: int, b: int| 0 <= a < b <= i && a != j - 1 && b != j - 1
                    implies #[trigger] parts@[a]@.len() <= #[trigger] parts@[b]@.len() by {
                    let aa = if a == j { j - 1 } else { a };
                    let bb = if b == j { j - 1 } else { b };
                    assert(parts@[a] == s[aa] && parts@[b] == s[bb]);
                    if aa != bb {
                        assert(s[aa]@.len() <= s[bb]@.len());
                    }
                }
                assert forall|b: int| j - 1 < b <= i implies parts@[j - 1]@.len() <= #[trigger] parts@[b]@.len() by {
                    if b > j {
                        assert(s[j as int]@.len() <= s[b]@.len());
                    }
                }
            }
            j = j - 1;
        }
        proof {
            assert forall|a: int, b: int| 0 <= a < b < n && b < i + 1 implies #[trigger] parts@[a]@.len() <= #[trigger] parts@[b]@.len() by {
                if a == j {
                } else if b == j {
                    if a < j - 1 {
                        assert(parts@[a]@.len() <= parts@[j - 1]@.len());
                    }
                }
            }
        }
        i = i + 1;
    }
    proof {
        assert forall|a: int, b: int| 0 <= a < b < parts@.len() implies #[trigger] parts@[a]@.len() <= #[trigger] parts@[b]@.len() by {
            assert(b < i);
        }
    }
}

/// Merging the two first parts keeps the ids and the total weight.
proof fn lemma_merge_flat<F: Fn(u32) -> u32>(cost: F, s: Seq<Vec<u32>>, m: Vec<u32>)
    requires
        s.len() >= 2,
        m@ == s[1]@ + s[0]@,
    ensures
        flat(seq![m] + s.skip(2)).to_multiset() == flat(s).to_multiset(),
        weight(cost, flat(seq![m] + s.skip(2))) == weight(cost, flat(s)),
{
    broadcast use vstd::multiset::group_multiset_axioms, vstd::seq_lib::lemma_multiset_commutative;
    let rest = s.skip(2);
    let s2 = seq![m] + rest;
    assert(s =~= seq![s[0], s[1]] + rest);
    lemma_flat_concat(seq![s[0], s[1]], rest);
    lemma_flat_two(s[0], s[1]);
    lemma_flat_concat(seq![m], rest);
    lemma_flat_one(m);
    let x = s[0]@;
    let y = s[1]@;
    assert(flat(s) == (x + y) + flat(rest));
    assert(flat(s2) == (y + x) + flat(rest));
    assert(flat(s2).to_multiset() =~= flat(s).to_multiset());
    lemma_weight_concat(cost, x + y, flat(rest));
    lemma_weight_concat(cost, y + x, flat(rest));
    lemma_weight_concat(cost, x, y);
    lemma_weight_concat(cost, y, x);
}

/// Appends the smallest part to the next one: the two parts become one.
proof fn lemma_merge_ok<F: Fn(u32) -> u32>(cost: F, s: Seq<Vec<u32>>, m: Vec<u32>, target: int, ids: vstd::multiset::Multiset<u32>, total: int)
    requires
        parts_ok(cost, s, target, ids, total),
        s.len() >= 2,
        m@ == s[1]@ + s[0]@,
    ensures
        parts_ok(cost, seq![m] + s.skip(2), target, ids, total),
{
    let rest = s.skip(2);
    let s2 = seq![m] + rest;
    lemma_merge_flat(cost, s, m);
    let x = s[0]@;
    let y = s[1]@;
    lemma_weight_concat(cost, y, x);
    lemma_weight_nonneg(cost, x);
    lemma_weight_nonneg(cost, y);
    assert(s[0]@.len() > 0 && s[1]@.len() > 0);
    assert(weight(cost, m@) >= target) by {
        if weight(cost, x) < target {
            assert(weight(cost, s[1]@) >= target);
        }
    }
    assert(s2[0] == m);
    assert forall|p: int| 0 <= p < s2.len() implies #[trigger] s2[p]@.len() > 0 by {
        if p > 0 {
            assert(s2[p] == s[p + 1]);
        }
    }
    assert forall|p: int, q: int| 0 <= p < s2.len() && 0 <= q < s2.len() && p != q
        && #[trigger] weight(cost, s2[p]@) < target implies #[trigger] weight(cost, s2[q]@) >= target by {
        if p > 0 && q > 0 {
            assert(s2[p] == s[p + 1] && s2[q] == s[q + 1]);
            assert(weight(cost, s[p + 1]@) < target);
        }
    }
}

impl PromptTrie {
    /// Balanced partition of the chains among `w` workers. Bottom-up over
    /// the trie, a subtree whose chains weigh at least `⌈total / w⌉` (by
    /// `cost`, a chain's weight) is cut off as a part, so that a part is a
    /// connected subtree and a shared prefix is resident on the workers that
    /// need it. While there are more than `w` parts, the parts are sorted by
    /// length (stably) and the shortest is appended to the next shortest,
    /// which keeps the balance but may join parts that are not connected.
    /// Chains of weight 0 that nothing carries up are left out.
    pub fn partition<F: Fn(u32) -> u32>(&self, cost: &F, w: usize) -> (parts: Vec<Vec<u32>>)
        requires
            cost_fn(*cost),
            weight(*cost, self.order()) <= u32::MAX,
            w == 0 || weight(*cost, self.order()) == 0 || weight(*cost, self.order()) + w <= u32::MAX,
        ensures
            parts@.len() <= w,
            w == 0 || weight(*cost, self.order()) == 0 ==> parts@.len() == 0,
            forall|p: int| 0 <= p < parts@.len() ==> #[trigger] parts@[p]@.len() > 0,
            flat(parts@).to_multiset().subset_of(self.order().to_multiset()),
            w > 0 ==> weight(*cost, flat(parts@)) == weight(*cost, self.order()),
            one_light(*cost, parts@, part_target(weight(*cost, self.order()), w as int)),
    {
        broadcast use vstd::multiset::group_multiset_axioms, vstd::seq_lib::lemma_multiset_commutative;
        proof {
            assert(flat(Seq::<Vec<u32>>::empty()) =~= Seq::<u32>::empty());
            lemma_ms_empty(Seq::<u32>::empty());
        }
        if w == 0 {
            return Vec::new();
        }
        let total: u32 = self.root.subtree_leaf_cost(cost);
        if total == 0 {
            return Vec::new();
        }
        proof {
            assert(total == weight(*cost, self.order()));
            assert(w <= u32::MAX);
        }
        let wu = w as u32;
        proof {
            assert(wu == w);
        }
        let target = (total + wu - 1) / wu;
        let ghost tgt = part_target(total as int, w as int);
        proof {
            assert(target == tgt);
            assert(target >= 1) by (nonlinear_arith)
                requires
                    total >= 1,
                    wu >= 1,
                    target == (total + wu - 1) / (wu as int),
            ;
        }
        let mut parts: Vec<Vec<u32>> = Vec::new();
        let ghost order = dfs(self.root);
        let (cw, cl) = part_sub(&self.root, cost, target, &mut parts);
        proof {
            assert(parts@.subrange(0, parts@.len() as int) =~= parts@);
            lemma_weight_nonneg(*cost, cl@);
            lemma_weight_nonneg(*cost, flat(parts@));
            assert forall|p: int| 0 <= p < parts@.len() implies #[trigger] parts@[p]@.len() > 0 by {
                assert(weight(*cost, parts@[p]@) >= target);
                if parts@[p]@.len() == 0 {
                    assert(weight(*cost, parts@[p]@) == 0);
                }
            }
        }
        if cw > 0 {
            let ghost pb = parts@;
            parts.push(cl);
            proof {
                assert(parts@.drop_last() =~= pb);
                assert(flat(parts@) == flat(pb) + cl@);
                lemma_weight_concat(*cost, flat(pb), cl@);
                lemma_within_close(flat(pb), cl@, order);
                lemma_ms_empty(Seq::<u32>::empty());
                assert(cl@.len() > 0);
                assert forall|p: int, q: int| 0 <= p < parts@.len() && 0 <= q < parts@.len() && p != q
                    && #[trigger] weight(*cost, parts@[p]@) < tgt implies #[trigger] weight(*cost, parts@[q]@) >= tgt by {
                    if p < pb.len() {
                        assert(parts@[p] == pb[p]);
                    }
                    if q < pb.len() {
                        assert(parts@[q] == pb[q]);
                    }
                }
            }
        } else {
            proof {
                lemma_ms_empty(Seq::<u32>::empty());
                assert(within(flat(parts@), cl@, order));
                assert forall|v: u32| flat(parts@).to_multiset().count(v) <= #[trigger] order.to_multiset().count(v) by {
                    assert(flat(parts@).to_multiset().add(cl@.to_multiset()).count(v) <= order.to_multiset().count(v));
                }
            }
        }
        let ghost ids = flat(parts@).to_multiset();
        proof {
            assert(forall|p: int| 0 <= p < parts@.len() ==> #[trigger] parts@[p]@.len() > 0);
            assert(parts_ok(*cost, parts@, tgt, ids, total as int));
            assert(ids.subset_of(order.to_multiset()));
        }
        while parts.len() > w
            invariant
                w >= 1,
                parts_ok(*cost, parts@, tgt, ids, total as int),
            decreases parts@.len(),
        {
            sort_by_len::<F>(&mut parts, Ghost(*cost), Ghost(tgt), Ghost(ids), Ghost(total as int));
            let ghost s = parts@;
            let mut smallest = parts.remove(0);
            let mut next = parts.remove(0);
            next.append(&mut smallest);
            parts.insert(0, next);
            proof {
                assert(parts@ =~= seq![parts@[0]] + s.skip(2));
                lemma_merge_ok(*cost, s, parts@[0], tgt, ids, total as int);
            }
        }
        parts
    }
}

} // verus!
