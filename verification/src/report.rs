//! Report-layer counting.

pub mod summary;
