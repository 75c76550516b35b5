//! Qualified names of declared items: the module path the walker is in,
//! joined with `::`, then the item's own name.

use vstd::prelude::*;
use vstd::string::StringExecFns;

verus! {

/// The walker's position: the module path from the crate root inward.
pub struct WalkCtx {
    pub mod_path: Vec<String>,
}

/// `::` as characters.
pub open spec fn sep() -> Seq<char> {
    seq![':', ':']
}

/// The module prefix built from the first `k` modules: each non-empty
/// module is appended, preceded by `::` unless it is the first of the path.
pub open spec fn mod_prefix(mods: Seq<String>, k: int) -> Seq<char>
    decreases k,
{
    if k <= 0 {
        Seq::empty()
    } else if mods[k - 1]@.len() == 0 {
        mod_prefix(mods, k - 1)
    } else {
        mod_prefix(mods, k - 1) + (if k - 1 > 0 { sep() } else { Seq::empty() }) + mods[k - 1]@
    }
}

/// The qualified name of `name` declared under module path `mods`.
pub open spec fn qualified(mods: Seq<String>, name: Seq<char>) -> Seq<char> {
    let p = mod_prefix(mods, mods.len() as int);
    if p.len() == 0 {
        name
    } else {
        p + sep() + name
    }
}

/// The qualified name of an item called `name` declared at `ctx`.
pub fn qual_of(ctx: &WalkCtx, name: &str) -> (s: String)
    ensures
        s@ == qualified(ctx.mod_path@, name@),
{
    let mut s = String::new();
    let mut i: usize = 0;
    proof {
        reveal_strlit("::");
    }
    while i < ctx.mod_path.len()
        invariant
            i <= ctx.mod_path@.len(),
            s@ == mod_prefix(ctx.mod_path@, i as int),
            "::"@ == sep(),
        decreases ctx.mod_path@.len() - i,
    {
        let m = &ctx.mod_path[i];
        if !m.as_str().is_empty() {
            if i > 0 {
                s.append("::");
            }
            s.append(m.as_str());
        }
        i = i + 1;
    }
    if !s.as_str().is_empty() {
        s.append("::");
    }
    s.append(name);
    s
}

/// `c` without a trailing `.rs`.
pub open spec fn strip_rs(c: Seq<char>) -> Seq<char> {
    if c.len() >= 3 && c.subrange(c.len() - 3, c.len() as int) == seq!['.', 'r', 's'] {
        c.subrange(0, c.len() - 3)
    } else {
        c
    }
}

/// `c` without a leading `src/`.
pub open spec fn strip_src(c: Seq<char>) -> Seq<char> {
    if c.len() >= 4 && c.subrange(0, 4) == seq!['s', 'r', 'c', '/'] {
        c.subrange(4, c.len() as int)
    } else {
        c
    }
}

/// `c` with each `/` written as `::`.
pub open spec fn slashes_to_seps(c: Seq<char>) -> Seq<char>
    decreases c.len(),
{
    if c.len() == 0 {
        Seq::empty()
    } else {
        slashes_to_seps(c.drop_last()) + (if c.last() == '/' { sep() } else { seq![c.last()] })
    }
}

/// Where the last `::` of `p` starts, or -1 where there is none.
pub open spec fn rfind_sep(p: Seq<char>) -> int
    decreases p.len(),
{
    if p.len() < 2 {
        -1
    } else if p[p.len() - 2] == ':' && p[p.len() - 1] == ':' {
        p.len() - 2
    } else {
        rfind_sep(p.drop_last())
    }
}

/// The module path that a file at `rel` (relative to the crate root)
/// stands for: `src/` and `.rs` dropped, `/` read as `::`, and a trailing
/// `mod`, `lib` or `main` segment dropped with its separator.
pub open spec fn root_module(rel: Seq<char>) -> Seq<char> {
    drop_file_segment(slashes_to_seps(strip_src(strip_rs(rel))))
}

/// `p` without a final `::mod`, `::lib` or `::main` (or the whole of `p`
/// where it is only that segment).
pub open spec fn drop_file_segment(p: Seq<char>) -> Seq<char> {
    let r = rfind_sep(p);
    let last = if r < 0 { p } else { p.subrange(r + 2, p.len() as int) };
    if last == seq!['m', 'o', 'd'] || last == seq!['l', 'i', 'b'] || last == seq!['m', 'a', 'i', 'n'] {
        p.subrange(0, if r < 0 { 0 } else { r })
    } else {
        p
    }
}

/// `String::from_iter`: the characters, in order, as a string.
#[verifier::external_body]
fn string_of(v: &Vec<char>) -> (s: String)
    ensures
        s@ == v@,
{
    String::from_iter(v.iter())
}

/// The characters of `s`, in order.
fn chars_of(s: &str) -> (v: Vec<char>)
    ensures
        v@ == s@,
{
    let n = s.unicode_len();
    let mut v: Vec<char> = Vec::new();
    let mut i: usize = 0;
    while i < n
        invariant
            n == s@.len(),
            i <= n,
            v@ == s@.take(i as int),
        decreases n - i,
    {
        v.push(s.get_char(i));
        proof {
            assert(s@.take(i + 1) =~= s@.take(i as int).push(s@[i as int]));
        }
        i = i + 1;
    }
    proof {
        assert(s@.take(n as int) =~= s@);
    }
    v
}

proof fn lemma_rfind_sep(p: Seq<char>)
    ensures
        rfind_sep(p) == -1 || 0 <= rfind_sep(p) <= p.len() - 2,
        rfind_sep(p) >= 0 ==> p[rfind_sep(p)] == ':' && p[rfind_sep(p) + 1] == ':',
        forall|k: int| rfind_sep(p) < k < p.len() - 1 ==> !(p[k] == ':' && #[trigger] p[k + 1] == ':'),
    decreases p.len(),
{
    if p.len() >= 2 && !(p[p.len() - 2] == ':' && p[p.len() - 1] == ':') {
        let q = p.drop_last();
        lemma_rfind_sep(q);
        assert forall|k: int| rfind_sep(p) < k < p.len() - 1 implies !(p[k] == ':' && #[trigger] p[k + 1] == ':') by {
            if k < q.len() - 1 {
                assert(p[k] == q[k] && p[k + 1] == q[k + 1]);
            }
        }
    }
}

/// `c` with `.rs` and `src/` stripped and `/` read as `::`.
fn module_chars(c: &Vec<char>) -> (p: Vec<char>)
    ensures
        p@ == slashes_to_seps(strip_src(strip_rs(c@))),
{
    let n = c.len();
    let e: usize = if n >= 3 && c[n - 3] == '.' && c[n - 2] == 'r' && c[n - 1] == 's' { n - 3 } else { n };
    proof {
        if n >= 3 {
            assert((c@.subrange(n - 3, n as int) == seq!['.', 'r', 's']) <==> (c@[n - 3] == '.' && c@[n - 2] == 'r' && c@[n - 1] == 's')) by {
                if c@[n - 3] == '.' && c@[n - 2] == 'r' && c@[n - 1] == 's' {
                    assert(c@.subrange(n - 3, n as int) =~= seq!['.', 'r', 's']);
                }
                if c@.subrange(n - 3, n as int) == seq!['.', 'r', 's'] {
                    assert(c@.subrange(n - 3, n as int)[0] == '.');
                    assert(c@.subrange(n - 3, n as int)[1] == 'r');
                    assert(c@.subrange(n - 3, n as int)[2] == 's');
                }
            }
        }
        assert(strip_rs(c@) =~= c@.subrange(0, e as int));
    }
    let b: usize = if e >= 4 && c[0] == 's' && c[1] == 'r' && c[2] == 'c' && c[3] == '/' { 4 } else { 0 };
    proof {
        let t = c@.subrange(0, e as int);
        if e >= 4 {
            assert((t.subrange(0, 4) == seq!['s', 'r', 'c', '/']) <==> (c@[0] == 's' && c@[1] == 'r' && c@[2] == 'c' && c@[3] == '/')) by {
                if c@[0] == 's' && c@[1] == 'r' && c@[2] == 'c' && c@[3] == '/' {
                    assert(t.subrange(0, 4) =~= seq!['s', 'r', 'c', '/']);
                }
                if t.subrange(0, 4) == seq!['s', 'r', 'c', '/'] {
                    assert(t.subrange(0, 4)[0] == 's');
                    assert(t.subrange(0, 4)[1] == 'r');
                    assert(t.subrange(0, 4)[2] == 'c');
                    assert(t.subrange(0, 4)[3] == '/');
                }
            }
        }
        assert(strip_src(t) =~= c@.subrange(b as int, e as int));
    }
    let ghost q = c@.subrange(b as int, e as int);
    let mut p: Vec<char> = Vec::new();
    let mut k: usize = b;
    while k < e
        invariant
            b <= k <= e <= c@.len(),
            q == c@.subrange(b as int, e as int),
            p@ == slashes_to_seps(q.take(k - b)),
        decreases e - k,
    {
        let ch = c[k];
        if ch == '/' {
            p.push(':');
            p.push(':');
        } else {
            p.push(ch);
        }
        proof {
            let t1 = q.take(k + 1 - b);
            assert(t1.drop_last() =~= q.take(k - b));
            assert(t1.last() == ch);
            assert(p@ =~= slashes_to_seps(t1));
        }
        k = k + 1;
    }
    proof {
        assert(q.take(e - b) =~= q);
    }
    p
}

/// `p` without its file segment; see `drop_file_segment`.
fn drop_file_segment_of(p: Vec<char>) -> (out: Vec<char>)
    ensures
        out@ == drop_file_segment(p@),
{
    proof {
        lemma_rfind_sep(p@);
    }
    let len = p.len();
    let mut r: usize = len;
    let mut j: usize = len;
    while j >= 2 && r == len
        invariant
            len == p@.len(),
            j <= len,
            r == len || (j >= 2 && r == j - 2 && p@[r as int] == ':' && p@[r + 1] == ':'),
            forall|x: int| j - 1 <= x < len - 1 ==> !(p@[x] == ':' && #[trigger] p@[x + 1] == ':'),
        decreases j + (if r == len { 1int } else { 0int }),
    {
        if p[j - 2] == ':' && p[j - 1] == ':' {
            r = j - 2;
        } else {
            j = j - 1;
        }
    }
    let ghost rs = rfind_sep(p@);
    proof {
        if r == len {
            if rs >= 0 {
                assert(p@[rs] == ':' && p@[rs + 1] == ':');
            }
            assert(rs < 0);
        } else {
            if rs > r {
                assert(p@[rs] == ':' && p@[rs + 1] == ':');
            }
            if rs < r {
                assert(!(p@[r as int] == ':' && p@[r + 1] == ':'));
            }
            assert(rs == r);
        }
    }
    let start: usize = if r == len { 0 } else { r + 2 };
    let seg = len - start;
    let special = if seg == 3 && c_eq3(&p, start, 'm', 'o', 'd') {
        true
    } else if seg == 3 && c_eq3(&p, start, 'l', 'i', 'b') {
        true
    } else if seg == 4 && p[start] == 'm' && p[start + 1] == 'a' && p[start + 2] == 'i' && p[start + 3] == 'n' {
        true
    } else {
        false
    };
    proof {
        let last = p@.subrange(start as int, len as int);
        let mm = seq!['m', 'o', 'd'];
        let ll = seq!['l', 'i', 'b'];
        let aa = seq!['m', 'a', 'i', 'n'];
        assert(last.len() == seg);
        if r == len {
            assert(last =~= p@);
        }
        if special {
            if seg == 3 && p@[start as int] == 'm' {
                assert(last =~= mm);
            } else if seg == 3 {
                assert(last =~= ll);
            } else {
                assert(last =~= aa);
            }
        } else {
            if last == mm {
                assert(last[0] == 'm' && last[1] == 'o' && last[2] == 'd');
            }
            if last == ll {
                assert(last[0] == 'l' && last[1] == 'i' && last[2] == 'b');
            }
            if last == aa {
                assert(last[0] == 'm' && last[1] == 'a' && last[2] == 'i' && last[3] == 'n');
            }
        }
        assert(special == (last == mm || last == ll || last == aa));
    }
    if special {
        let cut: usize = if r == len { 0 } else { r };
        let mut out: Vec<char> = Vec::new();
        let mut x: usize = 0;
        while x < cut
            invariant
                cut <= len == p@.len(),
                x <= cut,
                out@ == p@.subrange(0, x as int),
            decreases cut - x,
        {
            out.push(p[x]);
            proof {
                assert(out@ =~= p@.subrange(0, x + 1));
            }
            x = x + 1;
        }
        out
    } else {
        p
    }
}

/// The module path that a file at `rel` stands for; see `root_module`.
pub fn root_module_of(rel: &str) -> (m: String)
    ensures
        m@ == root_module(rel@),
{
    let c = chars_of(rel);
    let p = module_chars(&c);
    let out = drop_file_segment_of(p);
    string_of(&out)
}

/// Whether `p[at..at + 3]` is `x y z`.
fn c_eq3(p: &Vec<char>, at: usize, x: char, y: char, z: char) -> (res: bool)
    requires
        at + 3 <= p@.len(),
        p@.len() <= usize::MAX,
    ensures
        res == (p@[at as int] == x && p@[at + 1] == y && p@[at + 2] == z),
{
    p[at] == x && p[at + 1] == y && p[at + 2] == z
}

} // verus!
