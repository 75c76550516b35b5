//! Entry-point detection.
//!
//! There is no type resolution at this point, so detection is a heuristic over
//! attribute names and the text of parameter type paths. Tiers, first hit
//! wins:
//!   1. `fn main`.
//!   2. A handler attribute: `#[get("/")]`, `#[post(..)]`, `#[route(..)]`,
//!      `#[axum::debug_handler]`, ...
//!   3. A parameter whose type path names a web framework, or whose head is a
//!      well-known extractor type (`Path<..>`, `State<..>`, ...).

use vstd::prelude::*;
use crate::text::str_eq;

verus! {

// ---------------------------------------------------------------------------
// The heuristic, stated over character sequences.

/// Start of the last `::` that ends at or before `end`, or -1.
pub open spec fn last_sep(s: Seq<char>, end: int) -> int
    decreases end,
{
    if end < 2 || end > s.len() {
        -1
    } else if s[end - 2] == ':' && s[end - 1] == ':' {
        end - 2
    } else {
        last_sep(s, end - 1)
    }
}

/// The text after the last `::` (all of it when there is none).
pub open spec fn last_segment(s: Seq<char>) -> Seq<char> {
    let k = last_sep(s, s.len() as int);
    if k < 0 {
        s
    } else {
        s.subrange(k + 2, s.len() as int)
    }
}

/// Characters that end the head of a type path.
pub open spec fn is_stop(c: char) -> bool {
    c == '<' || c == ' ' || c == '&' || c == '('
}

/// Index of the first stop character at or after `i`, or the length.
pub open spec fn first_stop(s: Seq<char>, i: int) -> int
    decreases s.len() - i,
{
    if i < 0 || i >= s.len() {
        s.len() as int
    } else if is_stop(s[i]) {
        i
    } else {
        first_stop(s, i + 1)
    }
}

/// The last path segment of the text before the first stop character.
pub open spec fn type_head(s: Seq<char>) -> Seq<char> {
    last_segment(s.subrange(0, first_stop(s, 0)))
}

/// `f` occurs in `s` as a substring.
pub open spec fn occurs(s: Seq<char>, f: Seq<char>) -> bool {
    exists|i: int| 0 <= i && i + f.len() <= s.len() && #[trigger] s.subrange(i, i + f.len()) == f
}

/// Attribute names that mark request handlers.
pub open spec fn is_method_macro(s: Seq<char>) -> bool {
    ||| s == "get"@
    ||| s == "post"@
    ||| s == "put"@
    ||| s == "delete"@
    ||| s == "patch"@
    ||| s == "head"@
    ||| s == "options"@
    ||| s == "trace"@
    ||| s == "connect"@
    ||| s == "route"@
    ||| s == "routes"@
    ||| s == "debug_handler"@
    ||| s == "endpoint"@
}

/// The first web-framework name, in this order, that occurs in a type path.
pub open spec fn framework_in(ty: Seq<char>) -> Option<Seq<char>> {
    if occurs(ty, "axum"@) {
        Some("axum"@)
    } else if occurs(ty, "actix_web"@) {
        Some("actix_web"@)
    } else if occurs(ty, "rocket"@) {
        Some("rocket"@)
    } else if occurs(ty, "warp"@) {
        Some("warp"@)
    } else if occurs(ty, "tide"@) {
        Some("tide"@)
    } else if occurs(ty, "poem"@) {
        Some("poem"@)
    } else if occurs(ty, "salvo"@) {
        Some("salvo"@)
    } else {
        None
    }
}

/// Well-known extractor type names, matched when a path is unqualified.
pub open spec fn is_extractor_type(s: Seq<char>) -> bool {
    ||| s == "Path"@
    ||| s == "Query"@
    ||| s == "State"@
    ||| s == "Json"@
    ||| s == "Form"@
    ||| s == "Header"@
    ||| s == "TypedHeader"@
    ||| s == "Extension"@
    ||| s == "Request"@
    ||| s == "Bytes"@
    ||| s == "Cookie"@
    ||| s == "Payload"@
    ||| s == "Multipart"@
    ||| s == "ConnectInfo"@
    ||| s == "OriginalUri"@
}

/// Reason from the first handler attribute, if any.
pub open spec fn attr_reason(attrs: Seq<Seq<char>>) -> Option<Seq<char>>
    decreases attrs.len(),
{
    if attrs.len() == 0 {
        None
    } else if is_method_macro(last_segment(attrs[0])) {
        Some("handler attribute #["@ + attrs[0] + "]"@)
    } else {
        attr_reason(attrs.drop_first())
    }
}

/// Reason from the first extractor parameter, if any.
pub open spec fn param_reason(tys: Seq<Seq<char>>) -> Option<Seq<char>>
    decreases tys.len(),
{
    if tys.len() == 0 {
        None
    } else {
        let ty = tys[0];
        match framework_in(ty) {
            Some(f) => Some("extractor parameter `"@ + ty + "` ("@ + f + ")"@),
            None => if is_extractor_type(type_head(ty)) && ty != "String"@ {
                Some("extractor parameter `"@ + ty + "`"@)
            } else {
                param_reason(tys.drop_first())
            },
        }
    }
}

/// Why a function is an entry point, or `None`.
pub open spec fn entry_reason(name: Seq<char>, attrs: Seq<Seq<char>>, tys: Seq<Seq<char>>) -> Option<Seq<char>> {
    if name == "main"@ {
        Some("fn main"@)
    } else {
        match attr_reason(attrs) {
            Some(r) => Some(r),
            None => param_reason(tys),
        }
    }
}

/// The attribute names documented as marking request handlers: the HTTP
/// methods, then `route`, `routes`, `debug_handler` and `endpoint`.
pub open spec fn handler_attribute_names() -> Seq<Seq<char>> {
    seq![
        "get"@, "post"@, "put"@, "delete"@, "patch"@, "head"@, "options"@, "trace"@, "connect"@,
        "route"@, "routes"@, "debug_handler"@, "endpoint"@,
    ]
}

/// An attribute marks a handler exactly when its name is in the documented
/// list.
pub proof fn lemma_method_macro_is_the_list(s: Seq<char>)
    ensures
        is_method_macro(s) <==> handler_attribute_names().contains(s),
{
    let l = handler_attribute_names();
    if handler_attribute_names().contains(s) {
        let i = choose|i: int| 0 <= i < l.len() && l[i] == s;
        assert(0 <= i < 13);
    }
    if is_method_macro(s) {
        if s == "get"@ { assert(l[0] == s); }
        else if s == "post"@ { assert(l[1] == s); }
        else if s == "put"@ { assert(l[2] == s); }
        else if s == "delete"@ { assert(l[3] == s); }
        else if s == "patch"@ { assert(l[4] == s); }
        else if s == "head"@ { assert(l[5] == s); }
        else if s == "options"@ { assert(l[6] == s); }
        else if s == "trace"@ { assert(l[7] == s); }
        else if s == "connect"@ { assert(l[8] == s); }
        else if s == "route"@ { assert(l[9] == s); }
        else if s == "routes"@ { assert(l[10] == s); }
        else if s == "debug_handler"@ { assert(l[11] == s); }
        else { assert(l[12] == s); }
    }
}

proof fn lemma_attr_reason_at(attrs: Seq<Seq<char>>, k: int)
    requires
        0 <= k < attrs.len(),
        handler_attribute_names().contains(last_segment(attrs[k])),
        forall|j: int| 0 <= j < k ==> !handler_attribute_names().contains(#[trigger] last_segment(attrs[j])),
    ensures
        attr_reason(attrs) == Some("handler attribute #["@ + attrs[k] + "]"@),
    decreases k,
{
    lemma_method_macro_is_the_list(last_segment(attrs[0]));
    if k > 0 {
        let t = attrs.drop_first();
        assert forall|j: int| 0 <= j < k - 1 implies !handler_attribute_names().contains(#[trigger] last_segment(t[j])) by {
            assert(t[j] == attrs[j + 1]);
        }
        assert(t[k - 1] == attrs[k]);
        lemma_attr_reason_at(t, k - 1);
    }
}

proof fn lemma_attr_reason_none(attrs: Seq<Seq<char>>)
    requires
        forall|j: int| 0 <= j < attrs.len() ==> !handler_attribute_names().contains(#[trigger] last_segment(attrs[j])),
    ensures
        attr_reason(attrs) is None,
    decreases attrs.len(),
{
    if attrs.len() > 0 {
        lemma_method_macro_is_the_list(last_segment(attrs[0]));
        let t = attrs.drop_first();
        assert forall|j: int| 0 <= j < t.len() implies !handler_attribute_names().contains(#[trigger] last_segment(t[j])) by {
            assert(t[j] == attrs[j + 1]);
        }
        lemma_attr_reason_none(t);
    }
}

/// A function other than `main` whose attribute `k` is the first named (by
/// its last path segment) in the documented handler list is an entry point,
/// and the reason quotes that attribute.
pub proof fn lemma_handler_attribute_marks_entry(name: Seq<char>, attrs: Seq<Seq<char>>, tys: Seq<Seq<char>>, k: int)
    requires
        name != "main"@,
        0 <= k < attrs.len(),
        handler_attribute_names().contains(last_segment(attrs[k])),
        forall|j: int| 0 <= j < k ==> !handler_attribute_names().contains(#[trigger] last_segment(attrs[j])),
    ensures
        entry_reason(name, attrs, tys) == Some("handler attribute #["@ + attrs[k] + "]"@),
{
    lemma_attr_reason_at(attrs, k);
}

/// A function other than `main` with no attribute in the documented handler
/// list is an entry point only through its parameters.
pub proof fn lemma_no_handler_attribute(name: Seq<char>, attrs: Seq<Seq<char>>, tys: Seq<Seq<char>>)
    requires
        name != "main"@,
        forall|j: int| 0 <= j < attrs.len() ==> !handler_attribute_names().contains(#[trigger] last_segment(attrs[j])),
    ensures
        entry_reason(name, attrs, tys) == param_reason(tys),
{
    lemma_attr_reason_none(attrs);
}

/// The web-framework names documented as marking extractor parameters, in
/// the order they are tried.
pub open spec fn framework_names() -> Seq<Seq<char>> {
    seq!["axum"@, "actix_web"@, "rocket"@, "warp"@, "tide"@, "poem"@, "salvo"@]
}

/// The bare extractor type names documented as marking entry points.
pub open spec fn extractor_type_names() -> Seq<Seq<char>> {
    seq![
        "Path"@, "Query"@, "State"@, "Json"@, "Form"@, "Header"@, "TypedHeader"@, "Extension"@, "Request"@, "Bytes"@, "Cookie"@, "Payload"@, "Multipart"@, "ConnectInfo"@, "OriginalUri"@,
    ]
}

/// A type head is an extractor type exactly when it is in the documented
/// list.
pub proof fn lemma_extractor_type_is_the_list(s: Seq<char>)
    ensures
        is_extractor_type(s) <==> extractor_type_names().contains(s),
{
    let l = extractor_type_names();
    if extractor_type_names().contains(s) {
        let i = choose|i: int| 0 <= i < l.len() && l[i] == s;
        assert(0 <= i < 15);
    }
    if is_extractor_type(s) {
        if s == "Path"@ {
            assert(l[0] == s);
        } else if s == "Query"@ {
            assert(l[1] == s);
        } else if s == "State"@ {
            assert(l[2] == s);
        } else if s == "Json"@ {
            assert(l[3] == s);
        } else if s == "Form"@ {
            assert(l[4] == s);
        } else if s == "Header"@ {
            assert(l[5] == s);
        } else if s == "TypedHeader"@ {
            assert(l[6] == s);
        } else if s == "Extension"@ {
            assert(l[7] == s);
        } else if s == "Request"@ {
            assert(l[8] == s);
        } else if s == "Bytes"@ {
            assert(l[9] == s);
        } else if s == "Cookie"@ {
            assert(l[10] == s);
        } else if s == "Payload"@ {
            assert(l[11] == s);
        } else if s == "Multipart"@ {
            assert(l[12] == s);
        } else if s == "ConnectInfo"@ {
            assert(l[13] == s);
        } else {
            assert(l[14] == s);
        }
    }
}

/// The framework a type path names is the first of the documented list, in
/// its order, that occurs in the path; none when no listed name occurs.
pub proof fn lemma_framework_in_is_first_listed(ty: Seq<char>)
    ensures
        framework_in(ty) is None <==> forall|i: int| 0 <= i < framework_names().len() ==> !occurs(ty, #[trigger] framework_names()[i]),
        framework_in(ty) is Some ==> exists|i: int| 0 <= i < framework_names().len()
            && framework_in(ty) == Some(#[trigger] framework_names()[i]) && occurs(ty, framework_names()[i])
            && forall|j: int| 0 <= j < i ==> !occurs(ty, #[trigger] framework_names()[j]),
{
    let l = framework_names();
    if occurs(ty, "axum"@) {
        assert(framework_in(ty) == Some(l[0]) && occurs(ty, l[0]));
    } else if occurs(ty, "actix_web"@) {
        assert(framework_in(ty) == Some(l[1]) && occurs(ty, l[1]));
    } else if occurs(ty, "rocket"@) {
        assert(framework_in(ty) == Some(l[2]) && occurs(ty, l[2]));
    } else if occurs(ty, "warp"@) {
        assert(framework_in(ty) == Some(l[3]) && occurs(ty, l[3]));
    } else if occurs(ty, "tide"@) {
        assert(framework_in(ty) == Some(l[4]) && occurs(ty, l[4]));
    } else if occurs(ty, "poem"@) {
        assert(framework_in(ty) == Some(l[5]) && occurs(ty, l[5]));
    } else if occurs(ty, "salvo"@) {
        assert(framework_in(ty) == Some(l[6]) && occurs(ty, l[6]));
    }
    if framework_in(ty) is None {
        assert forall|i: int| 0 <= i < l.len() implies !occurs(ty, #[trigger] l[i]) by {
            assert(0 <= i < 7);
        }
    }
}

proof fn lemma_param_reason_some(tys: Seq<Seq<char>>, k: int)
    requires
        0 <= k < tys.len(),
        (exists|i: int| 0 <= i < framework_names().len() && #[trigger] occurs(tys[k], framework_names()[i]))
            || (extractor_type_names().contains(type_head(tys[k])) && tys[k] != "String"@),
    ensures
        param_reason(tys) is Some,
    decreases k,
{
    lemma_framework_in_is_first_listed(tys[0]);
    lemma_extractor_type_is_the_list(type_head(tys[0]));
    if k > 0 && param_reason(tys) is None {
        let t = tys.drop_first();
        assert(t[k - 1] == tys[k]);
        lemma_param_reason_some(t, k - 1);
    }
}

/// A function other than `main` with no handler attribute is an entry point
/// when one of its parameter types names a documented framework, or has a
/// documented extractor type as its head (other than a bare `String`).
pub proof fn lemma_extractor_parameter_marks_entry(name: Seq<char>, attrs: Seq<Seq<char>>, tys: Seq<Seq<char>>, k: int)
    requires
        name != "main"@,
        forall|j: int| 0 <= j < attrs.len() ==> !handler_attribute_names().contains(#[trigger] last_segment(attrs[j])),
        0 <= k < tys.len(),
        (exists|i: int| 0 <= i < framework_names().len() && #[trigger] occurs(tys[k], framework_names()[i]))
            || (extractor_type_names().contains(type_head(tys[k])) && tys[k] != "String"@),
    ensures
        entry_reason(name, attrs, tys) is Some,
{
    lemma_attr_reason_none(attrs);
    lemma_param_reason_some(tys, k);
}

/// The texts of a list of strings.
pub open spec fn texts(v: Seq<String>) -> Seq<Seq<char>> {
    v.map_values(|s: String| s@)
}

/// The text of an optional string.
pub open spec fn opt_text(o: Option<String>) -> Option<Seq<char>> {
    match o {
        Some(s) => Some(s@),
        None => None,
    }
}

// ---------------------------------------------------------------------------
// Executable pieces.

/// What `rsplit("::").next()` yields: the text after the last `::`.
pub fn last_segment_of(s: &str) -> (r: &str)
    ensures
        r@ == last_segment(s@),
{
    let n = s.unicode_len();
    let mut end = n;
    while end >= 2
        invariant
            n == s@.len(),
            end <= n,
            last_sep(s@, n as int) == last_sep(s@, end as int),
        decreases end,
    {
        if s.get_char(end - 2) == ':' && s.get_char(end - 1) == ':' {
            return s.substring_char(end, n);
        }
        end = end - 1;
    }
    s
}

/// The head of a type path: text before the first of `<`, space, `&`, `(`,
/// then its last `::` segment.
fn type_head_of(ty: &str) -> (r: &str)
    ensures
        r@ == type_head(ty@),
{
    let n = ty.unicode_len();
    let mut i: usize = 0;
    while i < n && !is_stop_char(ty.get_char(i))
        invariant
            n == ty@.len(),
            i <= n,
            first_stop(ty@, 0) == first_stop(ty@, i as int),
        decreases n - i,
    {
        i = i + 1;
    }
    let pre = ty.substring_char(0, i);
    last_segment_of(pre)
}

fn is_stop_char(c: char) -> (r: bool)
    ensures
        r == is_stop(c),
{
    c == '<' || c == ' ' || c == '&' || c == '('
}

/// Does `f` occur in `s`? A left-to-right scan of every start position.
fn contains_str(s: &str, f: &str) -> (r: bool)
    ensures
        r == occurs(s@, f@),
{
    let n = s.unicode_len();
    let m = f.unicode_len();
    if m > n {
        proof {
            assert forall|i: int| 0 <= i && i + f@.len() <= s@.len() implies #[trigger] s@.subrange(i, i + f@.len()) != f@ by {}
        }
        return false;
    }
    let mut i: usize = 0;
    while i <= n - m
        invariant
            n == s@.len(),
            m == f@.len(),
            m <= n,
            i <= n - m + 1,
            forall|k: int| 0 <= k < i ==> #[trigger] s@.subrange(k, k + m) != f@,
        decreases n - m + 1 - i,
    {
        let mut j: usize = 0;
        while j < m && s.get_char(i + j) == f.get_char(j)
            invariant
                n == s@.len(),
                m == f@.len(),
                i + m <= n,
                j <= m,
                forall|t: int| 0 <= t < j ==> s@[i + t] == f@[t],
            decreases m - j,
        {
            j = j + 1;
        }
        if j == m {
            proof {
                assert(s@.subrange(i as int, i + m) =~= f@);
            }
            return true;
        }
        proof {
            assert(s@.subrange(i as int, i + m)[j as int] != f@[j as int]);
        }
        i = i + 1;
    }
    false
}

fn method_macro(s: &str) -> (r: bool)
    ensures
        r == is_method_macro(s@),
{
    str_eq(s, "get") || str_eq(s, "post") || str_eq(s, "put") || str_eq(s, "delete") || str_eq(s, "patch")
        || str_eq(s, "head") || str_eq(s, "options") || str_eq(s, "trace") || str_eq(s, "connect")
        || str_eq(s, "route") || str_eq(s, "routes") || str_eq(s, "debug_handler") || str_eq(s, "endpoint")
}

fn extractor_type(s: &str) -> (r: bool)
    ensures
        r == is_extractor_type(s@),
{
    str_eq(s, "Path") || str_eq(s, "Query") || str_eq(s, "State") || str_eq(s, "Json") || str_eq(s, "Form")
        || str_eq(s, "Header") || str_eq(s, "TypedHeader") || str_eq(s, "Extension") || str_eq(s, "Request")
        || str_eq(s, "Bytes") || str_eq(s, "Cookie") || str_eq(s, "Payload") || str_eq(s, "Multipart")
        || str_eq(s, "ConnectInfo") || str_eq(s, "OriginalUri")
}

fn framework_of(ty: &str) -> (r: Option<&'static str>)
    ensures
        match r {
            Some(f) => framework_in(ty@) == Some(f@),
            None => framework_in(ty@) is None,
        },
{
    if contains_str(ty, "axum") {
        Some("axum")
    } else if contains_str(ty, "actix_web") {
        Some("actix_web")
    } else if contains_str(ty, "rocket") {
        Some("rocket")
    } else if contains_str(ty, "warp") {
        Some("warp")
    } else if contains_str(ty, "tide") {
        Some("tide")
    } else if contains_str(ty, "poem") {
        Some("poem")
    } else if contains_str(ty, "salvo") {
        Some("salvo")
    } else {
        None
    }
}

/// Classify a function as an entry point; the human-readable reason, or
/// `None`. `attrs` are the names of its attributes, `param_types` the
/// rendered type paths of its value parameters.
pub fn classify_fn_entry(name: &str, attrs: &[String], param_types: &[String]) -> (res: Option<String>)
    ensures
        opt_text(res) == entry_reason(name@, texts(attrs@), texts(param_types@)),
{
    if str_eq(name, "main") {
        return Some(String::from_str("fn main"));
    }
    let ghost av = texts(attrs@);
    proof {
        assert(av.subrange(0, av.len() as int) =~= av);
    }
    let mut i: usize = 0;
    while i < attrs.len()
        invariant
            name@ != "main"@,
            av == texts(attrs@),
            i <= attrs@.len(),
            attr_reason(av) == attr_reason(av.subrange(i as int, av.len() as int)),
        decreases attrs@.len() - i,
    {
        let a = attrs[i].as_str();
        let last = last_segment_of(a);
        proof {
            let rest = av.subrange(i as int, av.len() as int);
            assert(rest[0] == a@);
            assert(rest.drop_first() =~= av.subrange(i + 1, av.len() as int));
        }
        if method_macro(last) {
            let mut s = String::from_str("handler attribute #[");
            s.append(a);
            s.append("]");
            return Some(s);
        }
        i = i + 1;
    }
    proof {
        assert(av.subrange(attrs@.len() as int, av.len() as int) =~= Seq::<Seq<char>>::empty());
    }
    let ghost pv = texts(param_types@);
    proof {
        assert(pv.subrange(0, pv.len() as int) =~= pv);
    }
    let mut k: usize = 0;
    while k < param_types.len()
        invariant
            name@ != "main"@,
            pv == texts(param_types@),
            k <= param_types@.len(),
            attr_reason(texts(attrs@)) is None,
            param_reason(pv) == param_reason(pv.subrange(k as int, pv.len() as int)),
        decreases param_types@.len() - k,
    {
        let ty = param_types[k].as_str();
        proof {
            let rest = pv.subrange(k as int, pv.len() as int);
            assert(rest[0] == ty@);
            assert(rest.drop_first() =~= pv.subrange(k + 1, pv.len() as int));
        }
        match framework_of(ty) {
            Some(f) => {
                let mut s = String::from_str("extractor parameter `");
                s.append(ty);
                s.append("` (");
                s.append(f);
                s.append(")");
                return Some(s);
            },
            None => {
                let head = type_head_of(ty);
                if extractor_type(head) && !str_eq(ty, "String") {
                    let mut s = String::from_str("extractor parameter `");
                    s.append(ty);
                    s.append("`");
                    return Some(s);
                }
            },
        }
        k = k + 1;
    }
    proof {
        assert(pv.subrange(param_types@.len() as int, pv.len() as int) =~= Seq::<Seq<char>>::empty());
    }
    None
}

} // verus!
