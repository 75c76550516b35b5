//! Scan planning: Belady next-use hints, worker assignment, and the prompt
//! trie whose depth-first order minimises prefill.

pub mod belady;
pub mod budget;
pub mod schedule;
pub mod partition;
pub mod trie;
