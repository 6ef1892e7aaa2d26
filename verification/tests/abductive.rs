use pulse::abductive::AbductiveDomain;
use pulse::abductive_model::ImportedFormulaEffect;
use pulse::abstract_value::{AbstractValue, FreshCounters};
use pulse::access::Access;
use pulse::attribute::{Allocator, Attribute};
use pulse::formula::resolve::ValueSet;
use pulse::invalidation::Invalidation;
use pulse::sat_unsat::SatUnsat;
use pulse::sil::{IntLit, Location, Mangled, Procdesc, Procname, Pvar, Typ, Var};
use pulse::value_history::ValueHistory;

fn make_simple_pdesc() -> Procdesc {
    let pname = Procname::c_from_string("test");
    let mut pdesc = Procdesc::new(pname.clone(), Typ::void(), Location::dummy());
    pdesc.formals = vec![(Mangled::from_string("p"), Typ::void())];
    pdesc
}

#[test]
fn test_mk_initial_binds_formals() {
    let mut counters = FreshCounters::new();
    let pdesc = make_simple_pdesc();
    let state = AbductiveDomain::mk_initial(&pdesc, &mut counters);

    // Formal parameter 'p' should be bound in the stack
    assert!(!state.post.stack.is_empty());
}

#[test]
fn test_null_deref_detection() {
    let mut counters = FreshCounters::new();
    let pdesc = make_simple_pdesc();
    let mut state = AbductiveDomain::mk_initial(&pdesc, &mut counters);

    // Create a null value
    let null_addr = AbstractValue::mk_fresh(&mut counters);
    state.invalidate(
        null_addr,
        Invalidation::ConstantDereference(IntLit::zero()),
        ValueHistory::invalidated(
            Invalidation::ConstantDereference(IntLit::zero()),
            Location::dummy(),
        ),
    );

    // Checking validity of null should fail
    assert!(state.check_valid(null_addr).is_err());

    // A different address should be valid
    let other = AbstractValue::mk_fresh(&mut counters);
    assert!(state.check_valid(other).is_ok());
}

#[test]
fn test_use_after_free_detection() {
    let mut counters = FreshCounters::new();
    let pdesc = make_simple_pdesc();
    let mut state = AbductiveDomain::mk_initial(&pdesc, &mut counters);

    let addr = AbstractValue::mk_fresh(&mut counters);

    // Allocate
    state.allocate(addr, Allocator::CMalloc, Location::dummy());
    assert!(state.check_valid(addr).is_ok());

    // Free
    state.invalidate(
        addr,
        Invalidation::CFree,
        ValueHistory::invalidated(Invalidation::CFree, Location::dummy()),
    );
    assert!(state.check_valid(addr).is_err());
}

#[test]
fn test_heap_read_write() {
    let mut counters = FreshCounters::new();
    let pdesc = make_simple_pdesc();
    let mut state = AbductiveDomain::mk_initial(&pdesc, &mut counters);

    let addr = AbstractValue::mk_fresh(&mut counters);
    let val = AbstractValue::mk_fresh(&mut counters);

    // Write: addr --*--> val
    state.write_heap(addr, Access::Dereference, val);

    // Read: should find val
    let found = state.read_heap(addr, Access::Dereference, &mut counters);
    assert_eq!(found, val);
}

#[test]
fn test_heap_read_creates_fresh() {
    let mut counters = FreshCounters::new();
    let pdesc = make_simple_pdesc();
    let mut state = AbductiveDomain::mk_initial(&pdesc, &mut counters);

    let addr = AbstractValue::mk_fresh(&mut counters);

    // Read from unknown: should create fresh
    let v1 = state.read_heap(addr, Access::Dereference, &mut counters);
    // Reading again should return the same value (edge now exists)
    let v2 = state.read_heap(addr, Access::Dereference, &mut counters);
    assert_eq!(v1, v2);
}

#[test]
fn test_heap_read_does_not_abduce_local_roots() {
    let mut counters = FreshCounters::new();
    let pdesc = make_simple_pdesc();
    let mut state = AbductiveDomain::mk_initial(&pdesc, &mut counters);

    let local_addr = AbstractValue::mk_fresh(&mut counters);
    let _ = state.read_heap(local_addr, Access::Dereference, &mut counters);

    assert_eq!(
        state.pre.heap.find_edge(local_addr, &Access::Dereference),
        None
    );
}

#[test]
fn test_heap_read_preserves_original_pre_edge_after_post_write() {
    let mut counters = FreshCounters::new();
    let pdesc = make_simple_pdesc();
    let mut state = AbductiveDomain::mk_initial(&pdesc, &mut counters);
    let formal_var = Var::ProgramVar(Box::new(Pvar::mk(
        Mangled::from_string("p"),
        Procname::c_from_string("test"),
    )));
    let formal_addr = state.post.stack.find(&formal_var).unwrap();

    let before = state.read_heap(formal_addr, Access::Dereference, &mut counters);
    let after = AbstractValue::mk_fresh(&mut counters);
    state.write_heap(formal_addr, Access::Dereference, after);

    let found = state.read_heap(formal_addr, Access::Dereference, &mut counters);

    assert_eq!(found, after, "post-state should see the latest write");
    assert_eq!(
        state.pre.heap.find_edge(formal_addr, &Access::Dereference),
        Some(before),
        "pre-state should keep the original value seen through the formal"
    );
}

#[test]
fn test_heap_read_registers_pre_targets_for_deep_reads() {
    let mut counters = FreshCounters::new();
    let pdesc = make_simple_pdesc();
    let mut state = AbductiveDomain::mk_initial(&pdesc, &mut counters);
    let formal_var = Var::ProgramVar(Box::new(Pvar::mk(
        Mangled::from_string("p"),
        Procname::c_from_string("test"),
    )));
    let formal_addr = state.post.stack.find(&formal_var).unwrap();

    let inner = state.read_heap(formal_addr, Access::Dereference, &mut counters);
    let leaf = state.read_heap(inner, Access::Dereference, &mut counters);

    assert_eq!(
        state.pre.heap.find_edge(inner, &Access::Dereference),
        Some(leaf),
        "new pre targets should be registered so deeper reads are abduced too"
    );
}

#[test]
fn test_and_equal_substitutes_heap_attrs_and_sets() {
    let mut counters = FreshCounters::new();
    let pdesc = make_simple_pdesc();
    let mut state = AbductiveDomain::mk_initial(&pdesc, &mut counters);
    let src = AbstractValue::of_raw(1);
    let new = AbstractValue::of_raw(10);
    let old = AbstractValue::of_raw(20);

    state.pre.heap.add_edge(src, Access::Dereference, old);
    state.post.heap.add_edge(src, Access::Dereference, old);
    state.add_attr(old, Attribute::Initialized);
    state.must_be_valid.insert(old);
    state.need_dynamic_type_specialization.insert(old);

    assert!(state.and_equal(old, new).is_sat());
    assert_eq!(
        state.pre.heap.find_edge(src, &Access::Dereference),
        Some(new)
    );
    assert_eq!(
        state.post.heap.find_edge(src, &Access::Dereference),
        Some(new)
    );
    assert!(state
        .post
        .attrs
        .get(&new)
        .is_some_and(|attrs| attrs.contains(&Attribute::Initialized)));
    assert!(state.must_be_valid.contains(&new));
    assert!(state.need_dynamic_type_specialization.contains(&new));
}

#[test]
fn test_eq_zero_marks_heap_allocated_value_invalid() {
    let mut counters = FreshCounters::new();
    let pdesc = make_simple_pdesc();
    let mut state = AbductiveDomain::mk_initial(&pdesc, &mut counters);
    let formal_var = Var::ProgramVar(Box::new(Pvar::mk(
        Mangled::from_string("p"),
        Procname::c_from_string("test"),
    )));
    let formal_addr = state.post.stack.find(&formal_var).unwrap();
    let formal_val = state.read_heap(formal_addr, Access::Dereference, &mut counters);
    let _heap_target = state.read_heap(formal_val, Access::Dereference, &mut counters);

    state.mark_must_be_valid(formal_val);
    assert!(state.and_equal_const(formal_val, 0).is_sat());
    assert!(state.check_valid(formal_val).is_err());
}

#[test]
fn test_imported_eq_zero_reports_potential_invalid_access_without_invalid_attr() {
    let mut counters = FreshCounters::new();
    let pdesc = make_simple_pdesc();
    let mut state = AbductiveDomain::mk_initial(&pdesc, &mut counters);
    let formal_var = Var::ProgramVar(Box::new(Pvar::mk(
        Mangled::from_string("p"),
        Procname::c_from_string("test"),
    )));
    let formal_addr = state.post.stack.find(&formal_var).unwrap();
    let formal_val = state.read_heap(formal_addr, Access::Dereference, &mut counters);
    let _heap_target = state.read_heap(formal_val, Access::Dereference, &mut counters);

    state.mark_must_be_valid(formal_val);
    let (mut stack_allocated_before_call, mut heap_allocated_before_call) =
        state.snapshot_allocated_before_call();
    let result = state.path_condition.and_equal_const(formal_val, 0);

    let mut imported_must_be_valid = ValueSet::new();
    imported_must_be_valid.insert(state.get_var_repr(formal_val));
    assert!(matches!(
        state.apply_formula_result_for_summary_import(
            result,
            &mut imported_must_be_valid,
            &mut stack_allocated_before_call,
            &mut heap_allocated_before_call,
        ),
        SatUnsat::Sat(ImportedFormulaEffect::PotentialInvalidAccess(addr))
            if addr == state.get_var_repr(formal_val)
    ));
    assert!(
        state.check_valid(formal_val).is_ok(),
        "summary import should report the potential invalid access without persisting a synthetic invalid attr"
    );
}

#[test]
fn test_path_condition_null_check() {
    let mut counters = FreshCounters::new();
    let pdesc = make_simple_pdesc();
    let mut state = AbductiveDomain::mk_initial(&pdesc, &mut counters);

    let p = AbstractValue::mk_fresh(&mut counters);
    let null_val = AbstractValue::mk_fresh(&mut counters);

    // null_val = 0
    state.and_equal_const(null_val, 0);

    // Invalidate null_val
    state.invalidate(
        null_val,
        Invalidation::ConstantDereference(IntLit::zero()),
        ValueHistory::invalidated(
            Invalidation::ConstantDereference(IntLit::zero()),
            Location::dummy(),
        ),
    );

    // After p = null_val, p should also be known-zero
    state.and_equal(p, null_val);
    assert!(state.is_known_zero(p));
}
