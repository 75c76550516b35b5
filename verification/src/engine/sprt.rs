//! The outcome of one step of the sequential test.

use vstd::prelude::*;

verus! {

/// SPRT decision.
#[derive(Clone, Copy, Debug, PartialEq, Eq, Structural)]
pub enum Decision {
    /// Accept the alternative (vuln confirmed).
    Accept,
    /// Accept the null (benign — refuted).
    Reject,
    /// Keep gathering evidence.
    Continue,
}

} // verus!
