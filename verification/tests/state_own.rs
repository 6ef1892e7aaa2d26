use pulse::abductive::AbductiveDomain;
use pulse::abstract_value::{AbstractValue, FreshCounters};
use pulse::access::Access;
use pulse::attribute::{Allocator, Attribute, AttributeKind, Attributes};
use pulse::base_attrs::BaseAddressAttributes;
use pulse::base_domain::BaseDomain;
use pulse::bug_trace::deepest_level;
use pulse::diagnostic::{Diagnostic, IssueTypeId};
use pulse::execution_domain::{ExecutionDomain, ExecutionKind, StateComparison};
use pulse::formula::Operand;
use pulse::invalidation::Invalidation;
use pulse::sil::{
    Ident, IdentName, IntLit, Location, Mangled, Procdesc, Procname, Pvar, SourceFile, Typ, Var,
};
use pulse::value_history::{HistoryEvent, ValueHistory};

fn v(n: i64) -> AbstractValue {
    AbstractValue::of_raw(n)
}

fn at(line: i32) -> Location {
    Location {
        file: SourceFile::new("a.c"),
        line,
        col: 1,
        macro_file_opt: None,
        macro_line: -1,
    }
}

fn formal() -> Var {
    Var::ProgramVar(Box::new(Pvar::mk(
        Mangled::from_string("p"),
        Procname::c_from_string("f"),
    )))
}

fn start(counters: &mut FreshCounters) -> AbductiveDomain {
    let mut pdesc =
        Procdesc::new(Procname::c_from_string("f"), Typ::void(), Location::dummy());
    pdesc.formals = vec![(Mangled::from_string("p"), Typ::mk_ptr(Typ::void()))];
    AbductiveDomain::mk_initial(&pdesc, counters)
}

fn freed_access(addr: AbstractValue) -> Diagnostic {
    Diagnostic::AccessToInvalidAddress {
        addr,
        invalidation: Invalidation::CFree,
        access_location: at(9),
        trace_access_location: None,
        access_history: ValueHistory::epoch(),
        invalidation_history: ValueHistory::invalidated(Invalidation::CFree, at(4)),
    }
}

#[test]
fn pre_and_post_agree_at_the_start() {
    let mut counters = FreshCounters::new();
    let state = start(&mut counters);
    assert_eq!(state.pre.stack, state.post.stack);
    assert_eq!(state.pre.heap, state.post.heap);
    assert_eq!(state.pre.to_string(), state.post.to_string());
}

#[test]
fn reads_are_assumed_of_inputs_and_writes_are_not() {
    let mut counters = FreshCounters::new();
    let mut state = start(&mut counters);
    let root = state.post.stack.find(&formal()).unwrap();
    let read = state.read_heap(root, Access::Dereference, &mut counters);
    assert_eq!(state.pre.heap.find_edge(root, &Access::Dereference), Some(read));
    let written = AbstractValue::mk_fresh(&mut counters);
    state.write_heap(root, Access::Dereference, written);
    assert_eq!(state.read_heap(root, Access::Dereference, &mut counters), written);
    assert_eq!(state.pre.heap.find_edge(root, &Access::Dereference), Some(read));
}

#[test]
fn a_variable_keeps_its_value() {
    let mut counters = FreshCounters::new();
    let mut state = start(&mut counters);
    let x = Var::LogicalVar(Ident::create_normal(IdentName::from_string("x"), 3));
    let first = state.eval_var(&x, &mut counters);
    assert_eq!(state.eval_var(&x, &mut counters), first);
    assert_eq!(state.post.stack.find(&x), Some(first));
    state.post.stack.remove(&x);
    assert_eq!(state.post.stack.find(&x), None);
}

#[test]
fn equal_values_are_invalid_together() {
    let mut counters = FreshCounters::new();
    let mut state = start(&mut counters);
    assert!(state.and_equal(v(50), v(60)).is_sat());
    state.allocate(v(60), Allocator::CMalloc, at(1));
    assert!(state.check_valid(v(50)).is_ok());
    state.invalidate(
        v(60),
        Invalidation::CFree,
        ValueHistory::invalidated(Invalidation::CFree, at(2)),
    );
    let (reason, _) = *state.check_valid(v(50)).unwrap_err();
    assert_eq!(reason, Invalidation::CFree);
    assert!(state.check_valid(v(70)).is_ok());
}

#[test]
fn the_address_of_a_variable_is_not_null() {
    let mut counters = FreshCounters::new();
    let mut state = start(&mut counters);
    let root = state.post.stack.find(&formal()).unwrap();
    assert!(state.and_equal_const(root, 0).is_unsat());
}

#[test]
fn an_index_known_to_be_a_constant_has_one_value() {
    let mut counters = FreshCounters::new();
    let mut state = start(&mut counters);
    assert!(state.and_equal_const(v(40), 7).is_sat());
    assert!(state.and_equal_const(v(41), 7).is_sat());
    let first = state.canonicalize_for_access(v(40));
    let second = state.canonicalize_for_access(v(41));
    assert_eq!(first, second);
    assert_eq!(state.get_const(v(41)), Some(7));
    assert_eq!(state.get_const(v(42)), None);
}

#[test]
fn an_unknown_call_changes_what_its_argument_leads_to() {
    let mut counters = FreshCounters::new();
    let mut state = start(&mut counters);
    let addr = AbstractValue::mk_fresh(&mut counters);
    let target = state.read_heap(addr, Access::Dereference, &mut counters);
    let leaf = state.read_heap(target, Access::Dereference, &mut counters);
    state.allocate(target, Allocator::CMalloc, at(1));
    state.apply_unknown_effect(addr, &mut counters);
    let now = state.post.heap.find_edge(addr, &Access::Dereference).unwrap();
    assert_ne!(now, target);
    let old_leaf = state.post.heap.find_edge(target, &Access::Dereference).unwrap();
    assert_ne!(old_leaf, leaf);
    assert!(!state.post.attrs.is_allocated(target));
}

#[test]
fn pruning_records_a_condition() {
    let mut counters = FreshCounters::new();
    let mut state = start(&mut counters);
    let x = Operand::AbstractValue(v(30));
    assert!(state.prune_less_than(&x, &Operand::ConstOperand(10)).is_sat());
    assert_eq!(state.path_condition.conditions().len(), 1);
    assert!(state.prune_less_equal(&Operand::ConstOperand(20), &x).is_unsat());
}

#[test]
fn attributes_are_kept_by_kind() {
    let mut attrs = Attributes::empty();
    attrs.add(Attribute::Uninitialized);
    assert!(attrs.is_uninitialized());
    attrs.add(Attribute::Initialized);
    assert!(!attrs.is_uninitialized());
    assert!(attrs.is_marked_uninitialized());
    attrs.add(Attribute::Allocated(Allocator::CppNew, at(3)));
    attrs.add(Attribute::Allocated(Allocator::CppNew, at(3)));
    assert_eq!(attrs.len(), 3);
    attrs.remove_allocated();
    assert!(!attrs.is_allocated());
    attrs.retain_kinds(&vec![AttributeKind::Uninitialized]);
    assert_eq!(attrs.len(), 1);
    attrs.remove(&Attribute::Uninitialized);
    assert!(attrs.is_empty());
}

#[test]
fn attributes_move_with_a_substitution() {
    let mut attrs = BaseAddressAttributes::empty();
    attrs.add_one(v(1), Attribute::AlwaysReachable);
    attrs.mark_written_to(v(2), 5, at(1));
    attrs.subst_var(v(1), v(2));
    let moved = attrs.get(&v(2)).unwrap();
    assert!(moved.is_always_reachable());
    assert!(moved.is_initialized());
    assert!(moved.get_written_to().is_some());
    assert!(attrs.get(&v(1)).is_none());
    attrs.add_one(v(3), Attribute::Uninitialized);
    assert!(attrs.check_initialized(v(3)).is_err());
    attrs.initialize(v(3));
    assert!(attrs.check_initialized(v(3)).is_ok());
    assert!(attrs.get_closure_proc_name(v(3)).is_none());
}

#[test]
fn a_state_is_shown_by_its_parts() {
    let mut dom = BaseDomain::empty();
    dom.stack.add(formal(), v(1));
    dom.heap.add_edge(v(1), Access::Dereference, v(2));
    dom.attrs.add_one(v(2), Attribute::Initialized);
    let text = dom.to_string();
    assert!(text.contains("v1 -*-> v2; "));
    assert!(text.contains("v2: Initialized ; "));
}

#[test]
fn histories_are_merged_and_shown() {
    let pvar = Pvar::mk(Mangled::from_string("x"), Procname::c_from_string("f"));
    let a = ValueHistory::formal_argument(pvar).append_assignment(at(3));
    assert_eq!(a.signature(), "formal(x) -> assign@a.c:3:1");
    let b = ValueHistory::assignment(at(4));
    let both = a.merge(&b);
    assert_eq!(both.signature(), "formal(x) -> assign@a.c:3:1 | assign@a.c:4:1");
    assert_eq!(both.merge(&b).signature(), both.signature());
    assert!(ValueHistory::epoch().is_epoch());
    assert!(a.first_invalidation().is_none());
    let gone = b.append_event(HistoryEvent::Invalidated {
        invalidation: Invalidation::CFree,
        location: at(8),
    });
    assert_eq!(gone.first_invalidation().unwrap().1.line, 8);
    assert!(gone.contains_invalidation_of_same_type(&Invalidation::CFree));
    assert!(!gone.contains_invalidation_of_same_type(&Invalidation::FClose));
}

#[test]
fn each_invalidation_has_its_issue_type() {
    let cases = vec![
        (Invalidation::ConstantDereference(IntLit::zero()), "NULLPTR_DEREFERENCE"),
        (Invalidation::ConstantDereference(IntLit::of_int(8)), "PULSE_ERROR"),
        (
            Invalidation::ComparedToNullInThisProcedure(at(2)),
            "COMPARED_TO_NULL_AND_DEREFERENCED",
        ),
        (Invalidation::CFree, "USE_AFTER_FREE"),
        (Invalidation::FClose, "USE_AFTER_FREE"),
        (Invalidation::CppDelete, "USE_AFTER_DELETE"),
        (Invalidation::CppDeleteArray, "USE_AFTER_DELETE"),
        (Invalidation::OptionalEmpty, "OPTIONAL_EMPTY_ACCESS"),
        (Invalidation::StdVector("push_back".to_string()), "VECTOR_INVALIDATION"),
    ];
    for (invalidation, expected) in cases {
        let diag = Diagnostic::AccessToInvalidAddress {
            addr: v(1),
            invalidation,
            access_location: at(9),
            trace_access_location: None,
            access_history: ValueHistory::epoch(),
            invalidation_history: ValueHistory::epoch(),
        };
        assert_eq!(diag.get_issue_type(), expected);
    }
    let leak = Diagnostic::MemoryLeak {
        addr: v(1),
        allocator: Allocator::CMalloc,
        allocation_location: at(5),
    };
    assert_eq!(leak.get_issue_type_id(), IssueTypeId::MemoryLeakC);
    assert_eq!(leak.get_location().line, 5);
    let cycle = Diagnostic::RetainCycle { location: at(6) };
    assert_eq!(cycle.get_issue_type(), "RETAIN_CYCLE");
    assert_eq!(cycle.to_string(), "retain cycle at a.c:6:1");
    assert_eq!(cycle.dedup_key(), "RETAIN_CYCLE|a.c:6:1");
    assert!(!cycle.is_suppressed());
}

#[test]
fn an_issue_counts_its_trace() {
    let issue = freed_access(v(1)).to_issue_with_context("f", Some(3), true, false);
    assert_eq!(issue.bug_type, "USE_AFTER_FREE_LATENT");
    assert_eq!(issue.procedure_start_line, Some(3));
    assert_eq!(issue.file, "a.c");
    assert_eq!(issue.line, 9);
    let trace = issue.bug_trace.unwrap();
    assert_eq!(issue.bug_trace_length, Some(trace.len() as u32));
    assert_eq!(issue.bug_trace_max_depth, deepest_level(&trace));
    assert_eq!(trace[0].description, "invalidation part of the trace starts here");
}

#[test]
fn executions_are_ordered_by_kind_and_state() {
    let mut counters = FreshCounters::new();
    let state = start(&mut counters);
    let go = ExecutionDomain::ContinueProgram(state.clone());
    let stop = ExecutionDomain::ExitProgram(state.clone());
    let abort = ExecutionDomain::AbortProgram {
        state: Box::new(state.clone()),
        diagnostic: Box::new(freed_access(v(1))),
    };
    assert!(go.is_continue());
    assert_eq!(abort.kind(), ExecutionKind::Abort);
    assert!(abort.get_diagnostic().is_some());
    assert!(go.get_diagnostic().is_none());
    let same = StateComparison { states_equivalent: true, accesses_equivalent: true };
    assert!(go.leq(&go.clone(), same));
    assert!(!go.leq(&stop, same));
    assert!(!stop.leq(&abort, same));
    assert!(go.equal_fast(&go.clone()));
    assert!(!go.equal_fast(&stop));
    let mut changed = state;
    changed.write_heap(v(90), Access::Dereference, v(91));
    let other = ExecutionDomain::ContinueProgram(changed);
    assert!(!go.equal_fast(&other));
    let different = StateComparison { states_equivalent: false, accesses_equivalent: false };
    assert!(!go.leq(&other, different));
}

#[test]
fn equal_values_have_one_representative() {
    let mut counters = FreshCounters::new();
    let mut state = start(&mut counters);
    let before = state.clone();
    assert!(state.and_equal(v(50), v(60)).is_sat());
    assert_ne!(before.get_var_repr(v(50)), before.get_var_repr(v(60)));
    assert_eq!(state.get_var_repr(v(50)), state.get_var_repr(v(60)));
    assert_eq!(state.pre.stack, before.pre.stack);
}

#[test]
fn a_null_address_with_edges_is_invalid() {
    let mut counters = FreshCounters::new();
    let mut state = start(&mut counters);
    state.post.heap.add_edge(v(50), Access::Dereference, v(51));
    assert!(state.check_valid(v(50)).is_ok());
    assert!(state.and_equal_const(v(50), 0).is_sat());
    assert!(state.check_valid(v(50)).is_err());
    assert!(state.and_equal_const(v(60), 0).is_sat());
    assert!(state.check_valid(v(60)).is_ok());
}

#[test]
fn a_replaced_value_is_gone() {
    let mut domain = BaseDomain::empty();
    domain.stack.add(formal(), v(5));
    domain.heap.add_edge(v(5), Access::Dereference, v(5));
    domain.attrs.initialize(v(5));
    domain.subst_var(v(5), v(3));
    assert_eq!(domain.stack.find(&formal()), Some(v(3)));
    assert!(domain.heap.find_edge(v(5), &Access::Dereference).is_none());
    assert!(domain.attrs.get(&v(5)).is_none());
}

#[test]
fn attributes_can_be_changed_in_place() {
    let mut attrs = BaseAddressAttributes::empty();
    assert!(attrs.get_mut(&v(4)).is_none());
    attrs.add_one(v(4), Attribute::Uninitialized);
    attrs.add_one(v(9), Attribute::Uninitialized);
    attrs.get_mut(&v(4)).unwrap().add(Attribute::AlwaysReachable);
    assert!(attrs.get(&v(4)).unwrap().is_always_reachable());
    assert!(attrs.check_initialized(v(4)).is_err());
    assert!(!attrs.get(&v(9)).unwrap().is_always_reachable());
}
