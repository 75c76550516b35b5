//! The error a model backend reports.

use vstd::prelude::*;

verus! {

/// A model call failed; the text says why.
#[derive(Debug)]
pub struct ModelError(pub String);

} // verus!
