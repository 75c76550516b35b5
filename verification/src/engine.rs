//! The parts of the scan engine that decide without a model: severities,
//! prompt assembly, the judgment locator, and the shared value types.

pub mod finding;
pub mod model;
pub mod prompt;
pub mod slice;
pub mod sprt;
pub mod tools;
pub mod slash;
