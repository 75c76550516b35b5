//! Prompt assembly: a frozen, versioned system prefix shared by every scan,
//! a per-class rubric paragraph, then the chain source. Also the locator of
//! the JSON object in a pass-2 reply.

use vstd::prelude::*;
use vstd::string::StringExecFns;
use vstd::utf8::encode_utf8;
use crate::text::str_eq;

verus! {

/// The frozen prefix up to the rubric version.
pub open spec fn prefix_head() -> Seq<char> {
    "You are belay, a read-only Rust security scanner. Read-only: you may only\ncall the provided tools. Report only findings grounded in verified file\nbytes; if you cannot cite a span that matches the source, report nothing.\nRubric version: "@
}

/// The frozen prefix after the rubric version: the taxonomy.
pub open spec fn prefix_tail() -> Seq<char> {
    ".\nTaxonomy: tenant-isolation, cache-poisoning, authz-missing,\naccounting-integrity, inflight-race, resource-unbounded, panic-on-input,\nunsafe-soundness, ssrf-upstream, secret-exposure, injection, deser-bomb.\n"@
}

/// The frozen system + taxonomy prefix for a rubric version.
pub open spec fn prefix_text(version: Seq<char>) -> Seq<char> {
    prefix_head() + version + prefix_tail()
}

/// The frozen system + taxonomy prefix. The rubric version is part of the
/// text, so a rubric edit changes every cached prefix.
pub fn frozen_prefix(rubric_version: &str) -> (res: String)
    ensures
        res@ == prefix_text(rubric_version@),
{
    let mut s = String::from_str("You are belay, a read-only Rust security scanner. Read-only: you may only\ncall the provided tools. Report only findings grounded in verified file\nbytes; if you cannot cite a span that matches the source, report nothing.\nRubric version: ");
    s.append(rubric_version);
    s.append(".\nTaxonomy: tenant-isolation, cache-poisoning, authz-missing,\naccounting-integrity, inflight-race, resource-unbounded, panic-on-input,\nunsafe-soundness, ssrf-upstream, secret-exposure, injection, deser-bomb.\n");
    s
}

/// Distinct rubric versions give distinct prefixes, so a rubric edit that
/// bumps the version changes every cached prefix.
pub proof fn lemma_prefix_names_its_version(v1: Seq<char>, v2: Seq<char>)
    requires
        prefix_text(v1) == prefix_text(v2),
    ensures
        v1 == v2,
{
    let h = prefix_head();
    let t = prefix_tail();
    let (p1, p2) = (prefix_text(v1), prefix_text(v2));
    assert(p1 == h + v1 + t && p2 == h + v2 + t);
    assert(p1.len() == h.len() + v1.len() + t.len());
    assert(p2.len() == h.len() + v2.len() + t.len());
    assert(v1.len() == v2.len());
    assert forall|i: int| 0 <= i < v1.len() implies v1[i] == v2[i] by {
        assert((h + v1)[h.len() + i] == v1[i]);
        assert((h + v2)[h.len() + i] == v2[i]);
        assert(p1[h.len() + i] == (h + v1)[h.len() + i]);
        assert(p2[h.len() + i] == (h + v2)[h.len() + i]);
    }
    assert(v1 =~= v2);
}

/// The rubric paragraph of a class: a written rubric for the classes that
/// have one, a generic instruction otherwise; each begins with the class.
pub open spec fn rubric_text(class: Seq<char>) -> Seq<char> {
    if class == "tenant-isolation"@ {
        class + ": a cache key, radix key, or routing decision that is not\nscoped by tenant/org, so one tenant's request can read or poison\nanother's data. Positive: a key built from user input without the\ntenant id. Negative: a key prefixed with the authenticated tenant id."@
    } else if class == "panic-on-input"@ {
        class + ": `unwrap`/`expect`/index/slice on request-derived data, so\nattacker input can panic the worker. Positive: `headers[\"x\"].unwrap()`\non a request header. Negative: `headers.get(\"x\").ok_or(...)?`."@
    } else {
        class + ": report only if you can cite the exact span and explain the\nattacker-reachable path to the sink."@
    }
}

/// Every rubric paragraph begins with the class it is for.
pub proof fn lemma_rubric_begins_with_class(class: Seq<char>)
    ensures
        rubric_text(class).len() > class.len(),
        rubric_text(class).take(class.len() as int) == class,
{
    let r = rubric_text(class);
    reveal_strlit(": a cache key, radix key, or routing decision that is not\nscoped by tenant/org, so one tenant's request can read or poison\nanother's data. Positive: a key built from user input without the\ntenant id. Negative: a key prefixed with the authenticated tenant id.");
    reveal_strlit(": `unwrap`/`expect`/index/slice on request-derived data, so\nattacker input can panic the worker. Positive: `headers[\"x\"].unwrap()`\non a request header. Negative: `headers.get(\"x\").ok_or(...)?`.");
    reveal_strlit(": report only if you can cite the exact span and explain the\nattacker-reachable path to the sink.");
    assert(r.take(class.len() as int) =~= class);
}

/// A per-class rubric paragraph.
pub fn rubric_for(class: &str) -> (res: String)
    ensures
        res@ == rubric_text(class@),
{
    let mut s = String::from_str(class);
    if str_eq(class, "tenant-isolation") {
        s.append(": a cache key, radix key, or routing decision that is not\nscoped by tenant/org, so one tenant's request can read or poison\nanother's data. Positive: a key built from user input without the\ntenant id. Negative: a key prefixed with the authenticated tenant id.");
    } else if str_eq(class, "panic-on-input") {
        s.append(": `unwrap`/`expect`/index/slice on request-derived data, so\nattacker input can panic the worker. Positive: `headers[\"x\"].unwrap()`\non a request header. Negative: `headers.get(\"x\").ok_or(...)?`.");
    } else {
        s.append(": report only if you can cite the exact span and explain the\nattacker-reachable path to the sink.");
    }
    s
}

/// A pass-1 prompt: prefix, rubric, then the chain source in a code fence.
pub open spec fn pass1_text(prefix: Seq<char>, class: Seq<char>, chain: Seq<char>) -> Seq<char> {
    prefix + "\n"@ + rubric_text(class) + "\n\nSource:\n```\n"@ + chain + "\n```\n"@
}

/// Assemble a pass-1 prompt for a chain: frozen prefix + rubric + chain bytes.
pub fn assemble_pass1(prefix: &str, class: &str, chain_text: &str) -> (res: String)
    ensures
        res@ == pass1_text(prefix@, class@, chain_text@),
{
    let rubric = rubric_for(class);
    let mut s = String::from_str(prefix);
    s.append("\n");
    s.append(rubric.as_str());
    s.append("\n\nSource:\n```\n");
    s.append(chain_text);
    s.append("\n```\n");
    s
}

/// The pass-2 verdict.
#[derive(Clone, Copy, Debug, PartialEq, Eq, Structural)]
pub enum Verdict {
    Vuln,
    Benign,
}

/// The byte range of the JSON object in a model reply: from the first `{`
/// to just past the last `}`; `None` when either is missing or the last `}`
/// comes before the first `{`.
pub open spec fn object_range(bytes: Seq<u8>) -> Option<(usize, usize)> {
    if exists|i: int| 0 <= i < bytes.len() && bytes[i] == 0x7Bu8 {
        let start = choose|i: int| 0 <= i < bytes.len() && bytes[i] == 0x7Bu8
            && forall|k: int| 0 <= k < i ==> bytes[k] != 0x7Bu8;
        if exists|j: int| 0 <= j < bytes.len() && bytes[j] == 0x7Du8 {
            let last = choose|j: int| 0 <= j < bytes.len() && bytes[j] == 0x7Du8
                && forall|k: int| j < k < bytes.len() ==> bytes[k] != 0x7Du8;
            if start < last + 1 {
                Some((start as usize, (last + 1) as usize))
            } else {
                None
            }
        } else {
            None
        }
    } else {
        None
    }
}

/// Locate the JSON object of a pass-2 judgment in the reply `content`.
pub fn judgment_span(content: &str) -> (res: Option<(usize, usize)>)
    ensures
        res == object_range(encode_utf8(content@)),
{
    let b = content.as_bytes();
    let n = b.len();
    let mut i: usize = 0;
    while i < n && b[i] != 0x7Bu8
        invariant
            n == b@.len(),
            i <= n,
            forall|k: int| 0 <= k < i ==> b@[k] != 0x7Bu8,
        decreases n - i,
    {
        i = i + 1;
    }
    if i == n {
        return None;
    }
    let mut j: usize = n;
    while j > 0 && b[j - 1] != 0x7Du8
        invariant
            n == b@.len(),
            j <= n,
            forall|k: int| j <= k < n ==> b@[k] != 0x7Du8,
        decreases j,
    {
        j = j - 1;
    }
    proof {
        let bytes = b@;
        let start = choose|s: int| 0 <= s < bytes.len() && bytes[s] == 0x7Bu8
            && forall|k: int| 0 <= k < s ==> bytes[k] != 0x7Bu8;
        assert(start == i) by {
            if start < i {
                assert(bytes[start] != 0x7Bu8);
            }
            if i < start {
                assert(bytes[i as int] != 0x7Bu8);
            }
        }
        if j > 0 {
            let last = choose|t: int| 0 <= t < bytes.len() && bytes[t] == 0x7Du8
                && forall|k: int| t < k < bytes.len() ==> bytes[k] != 0x7Du8;
            assert(last == j - 1) by {
                if last < j - 1 {
                    assert(bytes[j - 1] != 0x7Du8);
                }
                if j - 1 < last {
                    assert(bytes[last] != 0x7Du8);
                }
            }
        }
    }
    if j == 0 {
        return None;
    }
    if i >= j {
        return None;
    }
    Some((i, j))
}

} // verus!
