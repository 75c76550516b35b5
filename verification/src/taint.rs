//! Dataflow over the taint model: the monotone worklist solver, the
//! interprocedural taint reachability, and Steensgaard alias classes.

pub mod steensgaard;
pub mod ifds;
pub mod lattice;
pub mod lower;
