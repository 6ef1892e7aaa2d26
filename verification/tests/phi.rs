use pulse::abstract_value::AbstractValue;
use pulse::binop::Binop;
use pulse::formula::atom::Atom;
use pulse::formula::citv::CItv;
use pulse::formula::lin_arith::LinArith;
use pulse::formula::phi::{Phi, TermEq};
use pulse::formula::resolve::ValueSet;
use pulse::formula::term::Term;
use pulse::formula::Operand;
use pulse::rational::Q;

fn value_set(values: Vec<AbstractValue>) -> ValueSet {
    let mut set = ValueSet::new();
    for v in values {
        set.insert(v);
    }
    set
}

#[test]
fn test_var_equal() {
    let mut phi = Phi::ttrue();
    let v1 = AbstractValue::of_raw(1);
    let v2 = AbstractValue::of_raw(2);

    let result = phi.and_var_equal(v1, v2);
    assert!(result.is_sat());
    assert_eq!(phi.get_repr(v1), phi.get_repr(v2));
}

#[test]
fn test_const_eq() {
    let mut phi = Phi::ttrue();
    let v = AbstractValue::of_raw(1);

    let result = phi.and_const_eq(v, 42);
    assert!(result.is_sat());
    assert_eq!(phi.get_known_const(v), Some(Q::from_integer(42)));
}

#[test]
fn test_const_eq_zero() {
    let mut phi = Phi::ttrue();
    let v = AbstractValue::of_raw(1);

    let result = phi.and_const_eq(v, 0);
    assert!(result.is_sat());
    assert!(phi.is_known_zero(v));
}

#[test]
fn phi_test_contradiction_different_constants() {
    let mut phi = Phi::ttrue();
    let v = AbstractValue::of_raw(1);

    phi.and_const_eq(v, 0);
    let result = phi.and_const_eq(v, 42);
    assert!(result.is_unsat());
}

#[test]
fn test_propagation_via_equality() {
    let mut phi = Phi::ttrue();
    let v1 = AbstractValue::of_raw(1);
    let v2 = AbstractValue::of_raw(2);

    // v1 = 0
    phi.and_const_eq(v1, 0);
    // v1 = v2 → v2 = 0
    phi.and_var_equal(v1, v2);
    assert!(phi.is_known_zero(v2));
}

#[test]
fn test_linear_eq_propagation() {
    let mut phi = Phi::ttrue();
    let x = AbstractValue::of_raw(1);
    let y = AbstractValue::of_raw(2);

    // x = y + 1
    let lin = LinArith::of_var(y).add(&LinArith::of_int(1));
    phi.and_linear_eq(x, lin);

    // y = 0 → x should be 1
    phi.and_const_eq(y, 0);
    assert_eq!(phi.get_known_const(x), Some(Q::from_integer(1)));
}

#[test]
fn test_add_linear_eq_rejects_non_integer_solution_from_substitution() {
    let mut phi = Phi::ttrue();
    let x = AbstractValue::of_raw(1);
    let sum = AbstractValue::of_raw(3);

    phi.mark_is_int(x);
    assert!(phi
        .add_linear_eq(x, LinArith::of_var(sum).mult_scalar(&Q::new(1, 2)))
        .is_sat());

    let result = phi.add_linear_eq(sum, LinArith::of_int(1));
    assert!(
        result.is_unsat(),
        "substituting sum=1 into x=sum/2 should reject x=1/2 when x is integer-typed"
    );
}

#[test]
fn test_atom_not_equal() {
    let mut phi = Phi::ttrue();
    let v = AbstractValue::of_raw(1);

    // v ≠ 0
    let result = phi.and_atom(Atom::NotEqual(Term::Var(v), Term::Const(0)));
    assert!(result.is_sat());
}

#[test]
fn test_atom_contradiction() {
    let mut phi = Phi::ttrue();
    let v = AbstractValue::of_raw(1);

    // v = 0
    phi.and_const_eq(v, 0);
    // v ≠ 0 → contradiction
    let result = phi.and_atom(Atom::NotEqual(Term::Var(v), Term::Const(0)));
    assert!(result.is_unsat());
}

#[test]
fn test_less_than_contradiction() {
    let v1 = AbstractValue::of_raw(1);
    let v2 = AbstractValue::of_raw(2);
    let t1 = Term::Var(v1);
    let t2 = Term::Var(v2);

    // x < y ∧ y < x → Unsat
    let mut phi = Phi::ttrue();
    assert!(phi
        .and_atom(Atom::LessThan(t1.clone(), t2.clone()))
        .is_sat());
    assert!(phi
        .and_atom(Atom::LessThan(t2.clone(), t1.clone()))
        .is_unsat());

    // x < y ∧ x = y → Unsat
    let mut phi = Phi::ttrue();
    assert!(phi
        .and_atom(Atom::LessThan(t1.clone(), t2.clone()))
        .is_sat());
    assert!(phi.and_atom(Atom::Equal(t1.clone(), t2.clone())).is_unsat());
}

#[test]
fn test_simplify_drops_unreachable_term_fn_app_interval_and_is_int_facts() {
    let mut phi = Phi::ttrue();
    let keep = AbstractValue::of_raw(1);
    let dead_term = AbstractValue::of_raw(2);
    let dead_actual = AbstractValue::of_raw(3);
    let dead_fn_ret = AbstractValue::of_raw(4);
    let dead_interval = AbstractValue::of_raw(5);
    let dead_is_int = AbstractValue::of_raw(6);

    assert!(phi.and_const_eq(keep, 7).is_sat());
    assert!(phi.and_const_eq(dead_actual, 0).is_sat());
    phi.term_eqs.insert(
        dead_term,
        TermEq {
            op: Binop::PlusA(None),
            lhs: Operand::ConstOperand(1),
            rhs: Operand::ConstOperand(2),
        },
    );
    assert!(phi
        .and_fn_app(dead_fn_ret, "__infer_skip", &vec![dead_actual])
        .is_sat());
    assert!(phi
        .add_interval(dead_interval, CItv::equal_to(42))
        .is_sat());
    phi.mark_is_int(dead_is_int);

    phi.simplify(&value_set(vec![keep]));

    assert!(
        phi.term_eqs.is_empty(),
        "dead term equalities should be dropped during simplification"
    );
    assert!(
        phi.iter_fn_app_eqs().is_empty(),
        "dead function-application facts should be dropped during simplification"
    );
    assert!(
        !phi.intervals.contains_key(&dead_interval),
        "dead intervals should be dropped during simplification"
    );
    assert!(
        !phi.is_int_vars.contains(&dead_is_int),
        "dead is_int facts should be dropped during simplification"
    );
    assert_eq!(
        phi.get_known_const(keep),
        Some(Q::from_integer(7)),
        "reachable constraints should survive simplification"
    );
}

#[test]
fn test_simplify_keeps_reachable_term_fn_app_interval_and_is_int_facts() {
    let mut phi = Phi::ttrue();
    let term_ret = AbstractValue::of_raw(1);
    let fn_actual = AbstractValue::of_raw(2);
    let fn_ret = AbstractValue::of_raw(3);

    phi.term_eqs.insert(
        term_ret,
        TermEq {
            op: Binop::PlusA(None),
            lhs: Operand::AbstractValue(fn_actual),
            rhs: Operand::ConstOperand(1),
        },
    );
    assert!(phi.and_const_eq(fn_actual, 0).is_sat());
    assert!(phi
        .and_fn_app(fn_ret, "__infer_skip", &vec![fn_actual])
        .is_sat());
    assert!(phi
        .add_interval(fn_actual, CItv::equal_to(0))
        .is_sat());
    phi.mark_is_int(fn_actual);

    phi.simplify(&value_set(vec![term_ret, fn_actual, fn_ret]));

    assert!(
        phi.term_eqs.contains_key(&term_ret),
        "reachable term equalities should survive simplification"
    );
    assert_eq!(
        phi.iter_fn_app_eqs().len(),
        1,
        "reachable function-application facts should survive simplification"
    );
    assert!(
        phi.intervals.contains_key(&fn_actual),
        "reachable intervals should survive simplification"
    );
    assert!(
        phi.is_int_vars.contains(&fn_actual),
        "reachable is_int facts should survive simplification"
    );
}
