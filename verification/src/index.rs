//! Spans, source files, the call graph, SCC condensation and reachability.

pub mod span;
pub mod bitset;
pub mod idset;
pub mod graph;
pub mod scc;
pub mod reach;
pub mod labels;
pub mod entry;
pub mod source;
pub mod symbol;
pub mod resolve;
pub mod witness;
pub mod naming;
pub mod model;
