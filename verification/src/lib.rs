//! Abstract state and constraint solving for a path-sensitive heap analysis.

pub mod abductive;
pub mod abductive_model;
pub mod abstract_value;
pub mod access;
pub mod attribute;
pub mod base_attrs;
pub mod base_domain;
pub mod base_memory;
pub mod base_stack;
pub mod binop;
pub mod bug_trace;
pub mod checker;
pub mod diagnostic;
pub mod diagnostic_laws;
pub mod edge_laws;
pub mod execution_domain;
pub mod formula;
pub mod heap_laws;
pub mod heap_mapping_laws;
pub mod heap_model;
pub mod heap_reach;
pub mod history_laws;
pub mod import_laws;
pub mod initial_laws;
pub mod invalidation;
pub mod key;
pub mod list;
pub mod mapping_laws;
pub mod ordered;
pub mod provenance_laws;
pub mod rational;
pub mod same_laws;
pub mod sat_unsat;
pub mod sil;
pub mod state_laws;
pub mod state_same;
pub mod step_laws;
pub mod subst_laws;
pub mod text;
pub mod value_history;

use vstd::prelude::*;

verus! {

} // verus!
