//! The command line of the `belay` binary, as plain values.

use vstd::prelude::*;

verus! {

/// The parsed command line.
#[derive(Debug)]
pub struct Cli {
    /// One-shot prompt; prints answer and exits (pipes/CI).
    pub prompt: Option<String>,
    pub command: Option<Command>,
}

/// A subcommand.
#[derive(Debug)]
pub enum Command {
    /// Build/inspect the index.
    Index {
        dump_graph: bool,
        dump_entry_points: bool,
    },
    /// Run a scan.
    Scan {
        format: String,
        fail_on: Option<String>,
    },
    /// Evaluate against a corpus.
    Eval {
        corpus: String,
    },
}

} // verus!
