//! A scan slice: the text sent to the model in pass 1, with its location.

use vstd::prelude::*;
use crate::index::span::{FileId, Span};

verus! {

/// A scan slice: the text sent to the model in pass 1, plus its location for
/// span verification.
#[derive(Clone, Debug)]
pub struct Slice {
    pub class: String,
    pub file: FileId,
    /// Byte span of this slice within the file.
    pub span: Span,
    pub text: String,
}

} // verus!
