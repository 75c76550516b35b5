//! Union-find over node indices whose parent links point down to smaller
//! indices, with path compression.

use vstd::prelude::*;

verus! {

/// Every parent link points to a node no larger than itself.
pub open spec fn uf_ok(p: Seq<usize>) -> bool {
    forall|x: int| 0 <= x < p.len() ==> #[trigger] p[x] <= x
}

/// The root reached by following parent links from `x`.
pub open spec fn root(p: Seq<usize>, x: int) -> int
    decreases x,
{
    if x < 0 || x >= p.len() || p[x] >= x {
        x
    } else {
        root(p, p[x] as int)
    }
}

/// `i` and `j` have the same root.
pub open spec fn same(p: Seq<usize>, i: int, j: int) -> bool {
    root(p, i) == root(p, j)
}

/// Every pair with one root in `p` has one root in `q`.
pub open spec fn mono(p: Seq<usize>, q: Seq<usize>) -> bool {
    forall|i: int, j: int| 0 <= i < p.len() && 0 <= j < p.len() && #[trigger] same(p, i, j) ==> same(q, i, j)
}

pub(crate) proof fn lemma_root(p: Seq<usize>, x: int)
    requires
        uf_ok(p),
        0 <= x < p.len(),
    ensures
        0 <= root(p, x) <= x,
        p[root(p, x)] == root(p, x),
    decreases x,
{
    if p[x] < x {
        lemma_root(p, p[x] as int);
    }
}

/// Pointing a node straight at its root changes no root.
pub(crate) proof fn lemma_root_compress(p: Seq<usize>, c: int, rt: usize, y: int)
    requires
        uf_ok(p),
        0 <= c < p.len(),
        root(p, c) == rt,
        0 <= y < p.len(),
    ensures
        uf_ok(p.update(c, rt)),
        root(p.update(c, rt), y) == root(p, y),
    decreases y,
{
    let q = p.update(c, rt);
    lemma_root(p, c);
    assert forall|x: int| 0 <= x < q.len() implies #[trigger] q[x] <= x by {
        if x != c {
            assert(q[x] == p[x]);
        }
    }
    if y == c {
        if (rt as int) < c {
            lemma_root(p, rt as int);
            assert(q[rt as int] == p[rt as int]);
            assert(root(q, rt as int) == rt as int);
            assert(root(q, c) == root(q, rt as int));
        } else {
            assert(root(q, c) == c);
        }
    } else {
        assert(q[y] == p[y]);
        if p[y] < y {
            lemma_root_compress(p, c, rt, p[y] as int);
            assert(root(q, y) == root(q, q[y] as int));
            assert(root(p, y) == root(p, p[y] as int));
        } else {
            assert(root(q, y) == y);
        }
    }
}

/// Linking root `a` under root `bb < a` moves exactly the nodes rooted at
/// `a` to `bb`.
pub(crate) proof fn lemma_root_union(p: Seq<usize>, a: int, bb: usize, y: int)
    requires
        uf_ok(p),
        0 <= a < p.len(),
        p[a] == a,
        p[bb as int] == bb,
        bb < a,
        0 <= y < p.len(),
    ensures
        uf_ok(p.update(a, bb)),
        root(p.update(a, bb), y) == (if root(p, y) == a { bb as int } else { root(p, y) }),
    decreases y,
{
    let q = p.update(a, bb);
    assert forall|x: int| 0 <= x < q.len() implies #[trigger] q[x] <= x by {
        if x != a {
            assert(q[x] == p[x]);
        }
    }
    if y == a {
        assert(q[bb as int] == bb);
        assert(root(q, bb as int) == bb as int);
        assert(root(q, a) == root(q, bb as int));
        assert(root(p, a) == a);
    } else {
        assert(q[y] == p[y]);
        if p[y] < y {
            lemma_root_union(p, a, bb, p[y] as int);
            assert(root(q, y) == root(q, q[y] as int));
            assert(root(p, y) == root(p, p[y] as int));
        } else {
            assert(root(q, y) == y);
            assert(root(p, y) == y);
        }
    }
}

/// Find with path compression: returns the root of `x` and points every
/// node on the way straight at it.
pub(crate) fn uf_find(parent: &mut Vec<usize>, x: usize) -> (rt: usize)
    requires
        uf_ok(old(parent)@),
        x < old(parent)@.len(),
    ensures
        final(parent)@.len() == old(parent)@.len(),
        uf_ok(final(parent)@),
        rt == root(old(parent)@, x as int),
        forall|y: int| 0 <= y < old(parent)@.len() ==> #[trigger] root(final(parent)@, y) == root(old(parent)@, y),
        forall|y: int| 0 <= y < old(parent)@.len() ==> #[trigger] final(parent)@[y] == old(parent)@[y]
            || final(parent)@[y] == root(old(parent)@, y),
{
    let ghost p0 = parent@;
    let mut rt = x;
    while parent[rt] != rt
        invariant
            parent@ == p0,
            uf_ok(p0),
            rt < p0.len(),
            root(p0, rt as int) == root(p0, x as int),
        decreases rt,
    {
        rt = parent[rt];
    }
    proof {
        lemma_root(p0, x as int);
    }
    let mut cur = x;
    while parent[cur] != rt
        invariant
            uf_ok(parent@),
            uf_ok(p0),
            parent@.len() == p0.len(),
            cur < p0.len(),
            rt < p0.len(),
            rt as int == root(p0, x as int),
            root(parent@, cur as int) == rt,
            parent@[rt as int] == rt,
            forall|y: int| 0 <= y < p0.len() ==> #[trigger] root(parent@, y) == root(p0, y),
            forall|y: int| 0 <= y < p0.len() ==> #[trigger] parent@[y] == p0[y] || parent@[y] == root(p0, y),
        decreases cur,
    {
        let ghost pb = parent@;
        let nxt = parent[cur];
        proof {
            assert(nxt < cur);
            assert(root(pb, nxt as int) == rt);
        }
        parent.set(cur, rt);
        proof {
            assert(parent@ == pb.update(cur as int, rt));
            assert forall|y: int| 0 <= y < p0.len() implies #[trigger] root(parent@, y) == root(p0, y) by {
                lemma_root_compress(pb, cur as int, rt, y);
            }
            lemma_root_compress(pb, cur as int, rt, 0);
            assert forall|y: int| 0 <= y < p0.len() implies #[trigger] parent@[y] == p0[y] || parent@[y] == root(p0, y) by {
                if y == cur {
                    assert(root(p0, cur as int) == root(pb, cur as int));
                }
            }
        }
        cur = nxt;
    }
    rt
}

pub(crate) proof fn lemma_mono_trans(p: Seq<usize>, q: Seq<usize>, s: Seq<usize>)
    requires
        mono(p, q),
        mono(q, s),
        q.len() == p.len(),
    ensures
        mono(p, s),
{
    assert forall|i: int, j: int| 0 <= i < p.len() && 0 <= j < p.len() && #[trigger] same(p, i, j) implies same(s, i, j) by {
        assert(same(q, i, j));
    }
}

} // verus!
