//! Finding severities and their report labels.

use vstd::prelude::*;

verus! {

/// How bad a confirmed finding is.
#[derive(Clone, Copy, Debug, PartialEq, Eq, Structural)]
pub enum Severity {
    Critical,
    High,
    Medium,
    Low,
    Info,
}

/// The lower-case name of a severity.
pub open spec fn severity_name(s: Severity) -> Seq<char> {
    match s {
        Severity::Critical => "critical"@,
        Severity::High => "high"@,
        Severity::Medium => "medium"@,
        Severity::Low => "low"@,
        Severity::Info => "info"@,
    }
}

/// The SARIF level of a severity.
pub open spec fn severity_sarif(s: Severity) -> Seq<char> {
    match s {
        Severity::Critical | Severity::High => "error"@,
        Severity::Medium => "warning"@,
        Severity::Low | Severity::Info => "note"@,
    }
}

impl Severity {
    pub fn as_str(&self) -> (res: &'static str)
        ensures
            res@ == severity_name(*self),
    {
        match self {
            Severity::Critical => "critical",
            Severity::High => "high",
            Severity::Medium => "medium",
            Severity::Low => "low",
            Severity::Info => "info",
        }
    }

    /// SARIF level.
    pub fn sarif_level(&self) -> (res: &'static str)
        ensures
            res@ == severity_sarif(*self),
    {
        match self {
            Severity::Critical | Severity::High => "error",
            Severity::Medium => "warning",
            Severity::Low | Severity::Info => "note",
        }
    }
}

/// The rank of a severity: `Info` lowest at 0, `Critical` highest at 4.
pub open spec fn rank(s: Severity) -> u8 {
    match s {
        Severity::Critical => 4,
        Severity::High => 3,
        Severity::Medium => 2,
        Severity::Low => 1,
        Severity::Info => 0,
    }
}

/// The rank a `--fail-on` level names (given in lower case); 0 for a name
/// that is no failing level.
pub open spec fn level_rank(level: Seq<char>) -> u8 {
    if level == "critical"@ {
        4
    } else if level == "high"@ {
        3
    } else if level == "medium"@ {
        2
    } else if level == "low"@ {
        1
    } else {
        0
    }
}

/// Each severity meets the `--fail-on` level of its own name exactly: its
/// rank is the rank that level names, and every severity but `Info` names a
/// failing level.
pub proof fn lemma_severity_meets_its_own_level(s: Severity)
    ensures
        rank(s) == level_rank(severity_name(s)),
        s != Severity::Info ==> level_rank(severity_name(s)) > 0,
{
    reveal_strlit("critical");
    reveal_strlit("high");
    reveal_strlit("medium");
    reveal_strlit("low");
    reveal_strlit("info");
    let (c, h, m, l, i) = ("critical"@, "high"@, "medium"@, "low"@, "info"@);
    assert(h[0] != c[0]);
    assert(m[0] != c[0] && m[0] != h[0]);
    assert(l[0] != c[0] && l[0] != h[0] && l[0] != m[0]);
    assert(i[0] != c[0] && i[0] != h[0] && i[0] != m[0] && i[0] != l[0]);
}

/// The severities are ranked in their documented order, most severe first:
/// critical, high, medium, low, info.
pub proof fn lemma_severity_order()
    ensures
        rank(Severity::Critical) > rank(Severity::High),
        rank(Severity::High) > rank(Severity::Medium),
        rank(Severity::Medium) > rank(Severity::Low),
        rank(Severity::Low) > rank(Severity::Info),
{
}

/// The SARIF level follows the rank: the two highest severities are errors,
/// the middle one a warning, the two lowest notes.
pub proof fn lemma_sarif_level_follows_rank(s: Severity)
    ensures
        severity_sarif(s) == (if rank(s) >= 3 {
            "error"@
        } else if rank(s) == 2 {
            "warning"@
        } else {
            "note"@
        }),
{
}

/// A scan with a finding of any severity but `Info` fails `--fail-on` at
/// the level of that severity's own name.
pub proof fn lemma_finding_fails_its_own_level(sevs: Seq<Severity>, k: int)
    requires
        0 <= k < sevs.len(),
        sevs[k] != Severity::Info,
    ensures
        level_rank(severity_name(sevs[k])) > 0 && exists|j: int| 0 <= j < sevs.len()
            && rank(#[trigger] sevs[j]) >= level_rank(severity_name(sevs[k])),
{
    lemma_severity_meets_its_own_level(sevs[k]);
    assert(rank(sevs[k]) >= level_rank(severity_name(sevs[k])));
}

/// The rank of `s`.
pub fn severity_rank(s: Severity) -> (r: u8)
    ensures
        r == rank(s),
{
    match s {
        Severity::Critical => 4,
        Severity::High => 3,
        Severity::Medium => 2,
        Severity::Low => 1,
        Severity::Info => 0,
    }
}

/// Whether a scan fails `--fail-on level` (the level in lower case): some
/// finding is at least as severe as the level, and the level names one of
/// the four failing severities.
pub fn fails_on(level: &str, severities: &[Severity]) -> (res: bool)
    ensures
        res == (level_rank(level@) > 0 && exists|k: int| 0 <= k < severities@.len()
            && rank(#[trigger] severities@[k]) >= level_rank(level@)),
{
    let threshold: u8 = if crate::text::str_eq(level, "critical") {
        4
    } else if crate::text::str_eq(level, "high") {
        3
    } else if crate::text::str_eq(level, "medium") {
        2
    } else if crate::text::str_eq(level, "low") {
        1
    } else {
        0
    };
    if threshold == 0 {
        return false;
    }
    let mut k: usize = 0;
    while k < severities.len()
        invariant
            k <= severities@.len(),
            threshold == level_rank(level@),
            threshold > 0,
            forall|x: int| 0 <= x < k ==> rank(#[trigger] severities@[x]) < threshold,
        decreases severities@.len() - k,
    {
        if severity_rank(severities[k]) >= threshold {
            assert(rank(severities@[k as int]) >= level_rank(level@));
            return true;
        }
        k = k + 1;
    }
    false
}

} // verus!
