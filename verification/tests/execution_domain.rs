use pulse::abductive::AbductiveDomain;
use pulse::abstract_value::{AbstractValue, FreshCounters};
use pulse::access::Access;
use pulse::diagnostic::Diagnostic;
use pulse::execution_domain::{ExecutionDomain, StateComparison};
use pulse::invalidation::Invalidation;
use pulse::sil::{
    Fieldname, IntLit, Location, Mangled, Procdesc, Procname, Pvar, QualifiedCppName, Typ, TypeName,
    Var,
};
use pulse::value_history::ValueHistory;

fn make_state_with_nested_value(
    dummy_fresh_values: usize,
) -> (AbductiveDomain, AbstractValue, AbstractValue) {
    let mut counters = FreshCounters::new();
    let pname = Procname::c_from_string("execution_domain_test");
    let mut pdesc = Procdesc::new(pname.clone(), Typ::void(), Location::dummy());
    pdesc.formals = vec![(Mangled::from_string("x"), Typ::void())];
    let mut state = AbductiveDomain::mk_initial(&pdesc, &mut counters);
    let pvar = Pvar::mk(Mangled::from_string("x"), pname);
    let formal_addr = state
        .post
        .stack
        .find(&Var::ProgramVar(Box::new(pvar)))
        .expect("formal should exist");

    for _ in 0..dummy_fresh_values {
        let _ = AbstractValue::mk_fresh(&mut counters);
    }

    let pointee = state.read_heap(formal_addr, Access::Dereference, &mut counters);
    let nested = AbstractValue::mk_fresh(&mut counters);
    let field = Access::FieldAccess(Fieldname::make(
        TypeName::CStruct(QualifiedCppName::from_string("Node")),
        "next",
    ));
    state.write_heap(pointee, field, nested);
    (state, pointee, nested)
}

fn invalid_access_diagnostic(addr: AbstractValue) -> Diagnostic {
    Diagnostic::AccessToInvalidAddress {
        addr,
        invalidation: Invalidation::ConstantDereference(IntLit::zero()),
        access_location: Location::dummy(),
        trace_access_location: None,
        access_history: ValueHistory::epoch(),
        invalidation_history: ValueHistory::epoch(),
    }
}

#[test]
fn latent_invalid_access_leq_tracks_address_under_alpha_renaming() {
    let (state1, _root1, nested1) = make_state_with_nested_value(0);
    let (state2, _root2, nested2) = make_state_with_nested_value(3);

    let exec1 = ExecutionDomain::LatentInvalidAccess {
        state: Box::new(state1),
        diagnostic: Box::new(invalid_access_diagnostic(nested1)),
    };
    let exec2 = ExecutionDomain::LatentInvalidAccess {
        state: Box::new(state2),
        diagnostic: Box::new(invalid_access_diagnostic(nested2)),
    };

    // The renaming of the values takes one access to the other.
    let renamed = StateComparison { states_equivalent: true, accesses_equivalent: true };
    assert!(exec1.leq(&exec2, renamed));
    assert!(exec2.leq(&exec1, renamed));
    let unrelated = StateComparison { states_equivalent: true, accesses_equivalent: false };
    assert!(!exec1.leq(&exec2, unrelated));
}

#[test]
fn latent_invalid_access_keeps_distinct_addresses_distinct() {
    let (state, root, nested) = make_state_with_nested_value(0);

    let exec1 = ExecutionDomain::LatentInvalidAccess {
        state: Box::new(state.clone()),
        diagnostic: Box::new(invalid_access_diagnostic(root)),
    };
    let exec2 = ExecutionDomain::LatentInvalidAccess {
        state: Box::new(state),
        diagnostic: Box::new(invalid_access_diagnostic(nested)),
    };

    // The states are the same, but no renaming takes one access to the other.
    let comparison = StateComparison { states_equivalent: true, accesses_equivalent: false };
    assert!(!exec1.equal_fast(&exec2));
    assert!(!exec1.leq(&exec2, comparison));
    assert!(!exec2.leq(&exec1, comparison));
    assert!(exec1.equal_fast(&exec1.clone()));
}
