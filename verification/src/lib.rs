//! belay: the verified core of a read-only Rust security scanner.
//!
//! The library holds the parts of the scanner that compute: byte spans and
//! line tables, the CSR call graph with its reachability queries, Tarjan's SCC
//! condensation and 2-hop reachability labels, the scan planner (prompt trie,
//! Belady hints, LPT), content-defined chunking and near-duplicate hashing,
//! the taint solver and the union-find alias analysis.

pub mod index;
pub mod taint;
pub mod plan;
pub mod text;
pub mod stat;
pub mod engine;
pub mod report;
pub mod cli;
