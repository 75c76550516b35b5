//! The session banner's count of findings by severity.

use vstd::prelude::*;
use crate::engine::finding::Severity;

verus! {

/// Findings count, in total and by severity.
#[derive(Clone, Copy, Debug, PartialEq, Eq, Structural)]
pub struct Summary {
    pub total: usize,
    pub critical: usize,
    pub high: usize,
    pub medium: usize,
    pub low: usize,
    pub info: usize,
}

/// How many entries of `s` are `sev`.
pub open spec fn count_sev(s: Seq<Severity>, sev: Severity) -> nat
    decreases s.len(),
{
    if s.len() == 0 {
        0
    } else {
        count_sev(s.drop_last(), sev) + if s.last() == sev { 1nat } else { 0nat }
    }
}

proof fn lemma_counts_add_up(s: Seq<Severity>)
    ensures
        count_sev(s, Severity::Critical) + count_sev(s, Severity::High) + count_sev(s, Severity::Medium)
            + count_sev(s, Severity::Low) + count_sev(s, Severity::Info) == s.len(),
    decreases s.len(),
{
    if s.len() > 0 {
        lemma_counts_add_up(s.drop_last());
    }
}

/// Count the severities of a list of findings (one entry per finding). The
/// per-severity counts add up to the total.
pub fn summary(severities: &[Severity]) -> (res: Summary)
    ensures
        res.total == severities@.len(),
        res.critical == count_sev(severities@, Severity::Critical),
        res.high == count_sev(severities@, Severity::High),
        res.medium == count_sev(severities@, Severity::Medium),
        res.low == count_sev(severities@, Severity::Low),
        res.info == count_sev(severities@, Severity::Info),
        res.critical + res.high + res.medium + res.low + res.info == res.total,
{
    let mut s = Summary { total: severities.len(), critical: 0, high: 0, medium: 0, low: 0, info: 0 };
    let mut i: usize = 0;
    while i < severities.len()
        invariant
            i <= severities@.len(),
            s.total == severities@.len(),
            s.critical == count_sev(severities@.take(i as int), Severity::Critical),
            s.high == count_sev(severities@.take(i as int), Severity::High),
            s.medium == count_sev(severities@.take(i as int), Severity::Medium),
            s.low == count_sev(severities@.take(i as int), Severity::Low),
            s.info == count_sev(severities@.take(i as int), Severity::Info),
        decreases severities@.len() - i,
    {
        proof {
            assert(severities@.take(i + 1).drop_last() =~= severities@.take(i as int));
            lemma_counts_add_up(severities@.take(i as int));
        }
        match severities[i] {
            Severity::Critical => s.critical = s.critical + 1,
            Severity::High => s.high = s.high + 1,
            Severity::Medium => s.medium = s.medium + 1,
            Severity::Low => s.low = s.low + 1,
            Severity::Info => s.info = s.info + 1,
        }
        i = i + 1;
    }
    proof {
        assert(severities@.take(severities@.len() as int) =~= severities@);
        lemma_counts_add_up(severities@);
    }
    s
}

} // verus!
