//! The items of budgeted coverage: a chain to scan, what it costs, and the
//! elements it covers. Choosing among them weighs floating-point gains and
//! is done outside the library.

use vstd::prelude::*;

verus! {

/// A coverage item: a chain with a cost and the elements it covers.
#[derive(Clone, Debug)]
pub struct Item {
    pub id: u32,
    pub cost: u32,
    pub covers: Vec<u32>,
}

} // verus!
