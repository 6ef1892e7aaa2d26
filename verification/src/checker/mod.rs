//! Checker: the decisions that drive the analysis of a procedure.
//!
//! A fixpoint over the control-flow graph keeps a bounded set of execution
//! states per node. The modules here decide what to run, what to keep and what
//! to report; running an instruction and applying a summary is up to the
//! program around the library, which hands the outcomes back.

pub mod alias_kept;
pub mod alias_laws;
pub mod apply_run;
pub mod call_laws;
pub mod call_run;
pub mod calls;
pub mod disjuncts;
pub mod issue_laws;
pub mod issues;
pub mod node_laws;
pub mod procedure;
pub mod run_laws;
pub mod scan;
pub mod scan_laws;
pub mod specialize;
pub mod stats;
pub mod stats_laws;
