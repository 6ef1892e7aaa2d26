use pulse::abstract_value::{AbstractValue, FreshCounters};
use pulse::binop::Binop;
use pulse::formula::atom::Atom;
use pulse::formula::citv::CItv;
use pulse::formula::lin_arith::LinArith;
use pulse::formula::phi::{NewEq, Phi};
use pulse::formula::reachable::expand_formula_reachable;
use pulse::formula::resolve::ValueSet;
use pulse::formula::term::Term;
use pulse::formula::{operand_const, Formula, Operand};
use pulse::rational::Q;
use pulse::sat_unsat::SatUnsat;

fn v(n: i64) -> AbstractValue {
    AbstractValue::of_raw(n)
}

fn text_of(q: Q) -> String {
    let mut out = String::new();
    q.push_text(&mut out);
    out
}

#[test]
fn fractions_are_kept_in_lowest_terms() {
    assert_eq!(text_of(Q::new(6, -4)), "-3/2");
    assert_eq!(text_of(Q::new(1, 2).plus(&Q::new(1, 3))), "5/6");
    assert_eq!(text_of(Q::new(1, 2).minus(&Q::new(1, 3))), "1/6");
    assert_eq!(text_of(Q::new(2, 3).times(&Q::new(3, 4))), "1/2");
    assert_eq!(text_of(Q::new(2, 3).over(&Q::new(4, 9))), "3/2");
    assert_eq!(text_of(Q::from_integer(7)), "7");
    assert!(Q::new(4, 2).is_integer());
    assert_eq!(Q::new(4, 2).numer(), 2);
    assert_eq!(Q::new(4, 8).denom(), 2);
    assert_eq!(Q::new(1, 3).negated(), Q::new(-1, 3));
}

#[test]
fn linear_combinations_are_shown_with_signs() {
    assert_eq!(LinArith::of_int(0).to_string(), "0");
    assert_eq!(LinArith::of_int(-3).to_string(), "-3");
    let x = LinArith::of_var(v(1));
    let y = LinArith::of_var(v(2));
    assert_eq!(x.add(&y).to_string(), "v1+v2");
    assert_eq!(x.sub(&y).to_string(), "v1-v2");
    assert_eq!(y.neg().add(&LinArith::of_int(4)).to_string(), "-v2+4");
    let scaled = x.mult_scalar(&Q::new(3, 2)).sub(&y.mult_scalar(&Q::from_integer(2)));
    assert_eq!(scaled.sub(&LinArith::of_int(5)).to_string(), "3/2·v1-2·v2-5");
}

#[test]
fn a_formula_shows_equations_then_comparisons() {
    let mut f = Formula::ttrue();
    assert_eq!(f.to_string(), "true");
    let sum = LinArith::of_var(v(2)).add(&LinArith::of_int(1));
    assert!(f.and_equal_linear(v(5), sum).is_sat());
    assert_eq!(f.to_string(), "v2 = v5-1");
    assert!(f
        .and_not_equal(&Operand::AbstractValue(v(7)), &Operand::ConstOperand(0))
        .is_sat());
    assert_eq!(f.to_string(), "v2 = v5-1 ∧ v7 ≠ 0");
}

#[test]
fn solving_adding_and_cancelling_agree() {
    let x = LinArith::of_var(v(1));
    let y = LinArith::of_var(v(2)).add(&LinArith::of_int(3));
    assert_eq!(x.add(&y).sub(&y).to_string(), "v1");
    assert_eq!(x.add(&x.neg()).to_string(), "0");
    assert!(LinArith::of_int(0).solve_eq_zero().is_sat());
    assert!(LinArith::of_int(2).solve_eq_zero().is_unsat());
    let replaced = x.add(&LinArith::of_int(1)).subst_var(v(1), &y);
    assert_eq!(replaced.to_string(), "v2+4");
}

#[test]
fn equalities_contradictions_and_order() {
    let mut f = Formula::ttrue();
    assert!(f.and_equal_const(v(1), 3).is_sat());
    assert!(f.and_equal_vars(v(1), v(2)).is_sat());
    assert_eq!(f.is_known_const(v(2)), Some(Q::from_integer(3)));
    assert!(f.and_equal_const(v(2), 4).is_unsat());

    let mut g = Formula::ttrue();
    assert!(g
        .and_less_than(&Operand::AbstractValue(v(1)), &Operand::ConstOperand(5))
        .is_sat());
    assert!(g.and_equal_const(v(1), 5).is_unsat());

    let mut h = Formula::ttrue();
    assert!(h.prune_eq(v(1), v(2), true).is_sat());
    assert!(h.prune_eq(v(1), v(2), false).is_unsat());
}

#[test]
fn a_sum_of_known_values_is_known() {
    let mut f = Formula::ttrue();
    assert!(f.and_equal_const(v(1), 4).is_sat());
    assert!(f
        .and_equal_binop(
            v(3),
            Binop::PlusA(None),
            &Operand::AbstractValue(v(1)),
            &Operand::ConstOperand(-4),
        )
        .is_sat());
    assert!(f.is_known_zero(v(3)));
    assert!(!f.is_known_nonzero(v(3)));
}

#[test]
fn atoms_are_negated_and_decided() {
    let atom = Atom::LessThan(Term::Const(1), Term::Const(2));
    assert_eq!(atom.is_trivially_true(), Some(true));
    assert_eq!(atom.negate().is_trivially_true(), Some(false));
    let open = Atom::Equal(Term::Var(v(1)), Term::Const(2));
    assert_eq!(open.is_trivially_true(), None);
    assert_eq!(open.negate().to_string(), "v1 ≠ 2");
    assert_eq!(open.subst_var(v(1), &Term::Const(2)).is_trivially_true(), Some(true));
}

#[test]
fn ranges_meet_and_are_shown() {
    let five = CItv::equal_to(5);
    assert_eq!(five.to_singleton(), Some(5));
    assert_eq!(five.intersection(&CItv::not_equal_to(5)), None);
    assert_eq!(CItv::top().intersection(&five), Some(five));
    assert_eq!(five.to_string(), "=Int(5)");
    assert_eq!(CItv::not_equal_to(0).to_string(), "≠0");
    assert_eq!(CItv::top().to_string(), "∈ℤ");
}

#[test]
fn what_a_formula_ties_together_is_reachable() {
    let mut f = Formula::ttrue();
    let sum = LinArith::of_var(v(2)).add(&LinArith::of_var(v(3)));
    assert!(f.and_equal_linear(v(1), sum).is_sat());
    assert!(f
        .and_less_than(&Operand::AbstractValue(v(8)), &Operand::AbstractValue(v(9)))
        .is_sat());
    let mut seeds = ValueSet::new();
    seeds.insert(v(1));
    let reached = expand_formula_reachable(&f, &seeds);
    assert!(reached.contains(&v(1)));
    assert!(reached.contains(&v(2)));
    assert!(reached.contains(&v(3)));
    assert!(!reached.contains(&v(8)));
}

#[test]
fn simplifying_forgets_what_is_not_kept() {
    let mut f = Formula::ttrue();
    assert!(f.and_equal_const(v(1), 3).is_sat());
    assert!(f.and_equal_const(v(2), 4).is_sat());
    let mut keep = ValueSet::new();
    keep.insert(v(1));
    f.simplify(&keep);
    assert_eq!(f.is_known_const(v(1)), Some(Q::from_integer(3)));
    assert_eq!(f.is_known_const(v(2)), None);
    f.forget_constraints_involving(&keep);
    assert_eq!(f.is_known_const(v(1)), None);
}

#[test]
fn a_first_constant_is_known_and_integers_add_as_integers() {
    let mut f = Formula::ttrue();
    assert!(f.and_equal_const(v(6), i64::MAX).is_sat());
    assert_eq!(f.is_known_const(v(6)), Some(Q::from_integer(i64::MAX)));
    assert_eq!(Q::from_integer(12).plus(&Q::from_integer(-5)), Q::from_integer(7));
    assert_eq!(Q::from_integer(12).over(&Q::from_integer(1)), Q::from_integer(12));
}

#[test]
fn values_made_equal_stay_together() {
    let mut f = Formula::ttrue();
    assert!(f.and_equal_vars(v(4), v(9)).is_sat());
    assert_eq!(f.get_var_repr(v(9)), v(4));
    assert!(f.and_equal_linear(v(2), LinArith::of_var(v(9))).is_sat());
    assert_eq!(f.get_var_repr(v(4)), v(2));
    assert!(f.and_equal_const(v(9), 8).is_sat());
    assert!(f
        .and_less_than(&Operand::AbstractValue(v(4)), &Operand::ConstOperand(20))
        .is_sat());
    assert_eq!(f.get_var_repr(v(4)), f.get_var_repr(v(9)));
}

#[test]
fn pure_calls_with_the_same_arguments_agree() {
    let mut f = Formula::ttrue();
    assert!(f.and_fn_app(v(5), "g", &vec![v(1), v(2)]).is_sat());
    assert!(f.and_fn_app(v(6), "h", &vec![v(1), v(2)]).is_sat());
    assert!(f.and_fn_app(v(7), "g", &vec![v(2), v(1)]).is_sat());
    assert_ne!(f.get_var_repr(v(6)), f.get_var_repr(v(5)));
    assert_ne!(f.get_var_repr(v(7)), f.get_var_repr(v(5)));
    assert!(f.and_fn_app(v(8), "g", &vec![v(1), v(2)]).is_sat());
    assert_eq!(f.get_var_repr(v(8)), f.get_var_repr(v(5)));
}

#[test]
fn conditions_are_exported_in_steps() {
    let mut f = Formula::ttrue();
    assert!(f.prune_eq_const(v(1), 3, true).is_sat());
    assert!(f
        .prune_less_than(&Operand::AbstractValue(v(2)), &Operand::AbstractValue(v(3)))
        .is_sat());
    let mut keep = ValueSet::new();
    keep.insert(v(1));
    keep.insert(v(2));
    keep.insert(v(3));
    let conditions = f.rewritten_conditions(&keep);
    assert_eq!(conditions.len(), 2);
    let atoms = f.summary_atoms(&conditions);
    assert_eq!(atoms.len(), f.phi().atoms.len() + 2);
    assert_eq!(atoms[atoms.len() - 1], conditions[1].0);
    let mut vocabulary = ValueSet::new();
    vocabulary.insert(v(1));
    f.keep_conditions(conditions, &vocabulary);
    assert_eq!(f.conditions().len(), 1);
    assert_eq!(f.conditions().key_at(0).to_string(), "v1 ≠ 3");
}

fn apart(f: &Formula) -> bool {
    let eqs = &f.phi().linear_eqs;
    (0..eqs.len()).all(|i| {
        let vars = &eqs.value_at(i).vars;
        (0..vars.len()).all(|j| !eqs.contains_key(vars.key_at(j)))
    })
}

fn plus(n: i64, c: i64) -> LinArith {
    LinArith::of_var(v(n)).add(&LinArith::of_int(c))
}

#[test]
fn equations_mention_no_solved_variable() {
    let mut f = Formula::ttrue();
    assert!(f.and_equal_linear(v(2), plus(3, 1)).is_sat());
    assert!(f.and_equal_linear(v(2), plus(1, 1)).is_sat());
    assert!(apart(&f));
    assert_eq!(f.get_var_repr(v(3)), v(1));
    assert_eq!(f.phi().linear_eqs.len(), 1);
    assert_eq!(
        f.phi().linear_eqs.get(&v(2)).unwrap().to_string(),
        "v1+1"
    );

    let mut g = Formula::ttrue();
    assert!(g.and_equal_linear(v(1), plus(5, 1)).is_sat());
    assert!(g.and_equal_linear(v(2), plus(4, 3)).is_sat());
    assert!(g.and_equal_vars(v(1), v(4)).is_sat());
    assert!(apart(&g));
    assert!(g.and_equal_const(v(5), 6).is_sat());
    assert_eq!(g.is_known_const(v(4)), Some(Q::from_integer(7)));
    assert_eq!(g.is_known_const(v(2)), Some(Q::from_integer(10)));
    assert!(apart(&g));
}

#[test]
fn a_merge_of_a_solved_variable_is_solved_again() {
    let mut f = Formula::ttrue();
    assert!(f.and_equal_linear(v(1), plus(4, 1)).is_sat());
    assert!(f.and_equal_vars(v(1), v(4)).is_unsat());
    let mut g = Formula::ttrue();
    assert!(g.and_equal_linear(v(1), plus(6, 2)).is_sat());
    assert!(g.and_equal_linear(v(3), plus(7, 2)).is_sat());
    assert!(g.and_equal_vars(v(1), v(3)).is_sat());
    assert_eq!(g.get_var_repr(v(7)), v(6));
    assert!(apart(&g));
}

#[test]
fn a_disequality_with_zero_makes_nonzero() {
    let mut f = Formula::ttrue();
    assert!(!f.is_known_nonzero(v(1)));
    assert!(f
        .and_not_equal(&Operand::AbstractValue(v(1)), &Operand::ConstOperand(0))
        .is_sat());
    assert!(f.is_known_nonzero(v(1)));
    assert!(!f.is_known_nonzero(v(2)));
    let mut g = Formula::ttrue();
    assert!(g
        .and_not_equal(&Operand::AbstractValue(v(1)), &Operand::ConstOperand(3))
        .is_sat());
    assert!(!g.is_known_nonzero(v(1)));
}

#[test]
fn only_integers_are_folded() {
    let mut f = Formula::ttrue();
    assert!(f.and_equal_linear(v(1), LinArith::of_q(Q::new(5, 2))).is_sat());
    assert!(f.and_equal_const(v(2), 2).is_sat());
    assert_eq!(operand_const(&Operand::AbstractValue(v(1)), f.phi()), None);
    assert_eq!(operand_const(&Operand::AbstractValue(v(2)), f.phi()), Some(2));
    assert_eq!(operand_const(&Operand::ConstOperand(7), f.phi()), Some(7));
}

#[test]
fn the_order_of_summands_does_not_matter() {
    let a = plus(1, 2).add(&LinArith::of_var(v(2)).mult_scalar(&Q::new(1, 3)));
    let b = plus(3, -5).sub(&LinArith::of_var(v(2)).mult_scalar(&Q::new(1, 3)));
    assert_eq!(a.add(&b), b.add(&a));
    assert_eq!(a.add(&b).to_string(), "v1+v3-3");
    assert_eq!(a.add(&b).get_coefficient(v(2)), None);
}

#[test]
fn each_kind_of_bound_gets_its_witness() {
    let x = Operand::AbstractValue(v(1));
    let cases = [
        (true, true, 5, "-a1+5"),
        (true, false, 5, "-a1+4"),
        (false, true, 5, "a1+5"),
        (false, false, 5, "a1+6"),
        (true, true, 0, "-a1"),
    ];
    for (upper, or_equal, c, expected) in cases {
        let mut f = Formula::ttrue();
        let c = Operand::ConstOperand(c);
        let (a, b) = if upper { (&x, &c) } else { (&c, &x) };
        let result = if or_equal { f.prune_less_equal(a, b) } else { f.prune_less_than(a, b) };
        assert!(result.is_sat());
        let mut keep = ValueSet::new();
        keep.insert(v(1));
        let mut counters = FreshCounters::new();
        f.simplify_for_summary(&keep, &keep, &mut counters);
        assert_eq!(f.phi().linear_eqs.get(&v(1)).unwrap().to_string(), expected);
        assert_eq!(counters.next_fresh_restricted, -2);
        assert_eq!(f.phi().atoms.len(), 0);
        assert_eq!(f.conditions().len(), 1);
        assert!(apart(&f));
    }
}

#[test]
fn a_solved_or_hidden_value_gets_no_witness() {
    let mut f = Formula::ttrue();
    assert!(f.and_equal_linear(v(1), plus(2, 1)).is_sat());
    assert!(f
        .and_less_equal(&Operand::AbstractValue(v(3)), &Operand::ConstOperand(4))
        .is_sat());
    let mut keep = ValueSet::new();
    keep.insert(v(1));
    keep.insert(v(2));
    let mut counters = FreshCounters::new();
    let reported = f.simplify_for_summary_with_witness_and_eq_zero_targets(
        &keep,
        &keep,
        &keep,
        &keep,
        &mut counters,
    );
    assert!(reported.is_empty());
    assert_eq!(counters.next_fresh_restricted, -1);
    assert_eq!(f.phi().linear_eqs.len(), 1);
    assert_eq!(f.phi().linear_eqs.get(&v(1)).unwrap().to_string(), "v2+1");
}

#[test]
fn an_equation_of_variables_merges_them_whatever_is_known() {
    let mut phi = Phi::ttrue();
    assert!(phi.and_const_eq(v(1), 5).is_sat());
    let reported = phi.and_linear_eq(v(1), LinArith::of_var(v(2)));
    assert!(matches!(reported, SatUnsat::Sat(eqs) if eqs == vec![NewEq::Equal(v(2), v(1))]));
    assert_eq!(phi.get_repr(v(2)), v(1));
    assert_eq!(phi.get_known_const(v(2)), Some(Q::from_integer(5)));

    let mut f = Formula::ttrue();
    assert!(f.and_equal_linear(v(1), plus(3, 1)).is_sat());
    let reported = f.and_equal_linear(v(1), LinArith::of_var(v(2)));
    assert!(matches!(reported, SatUnsat::Sat(eqs) if eqs == vec![NewEq::Equal(v(2), v(1))]));
    assert_eq!(f.get_var_repr(v(2)), v(1));
    assert!(apart(&f));
    assert!(f.and_equal_const(v(3), 4).is_sat());
    assert_eq!(f.is_known_const(v(2)), Some(Q::from_integer(5)));
}

#[test]
fn a_sum_with_zero_is_its_operand() {
    let mut f = Formula::ttrue();
    assert!(f.and_equal_const(v(9), 0).is_sat());
    assert!(f.and_equal_linear(v(2), plus(4, 3)).is_sat());
    let result = f.and_equal_binop(
        v(2),
        Binop::PlusA(None),
        &Operand::AbstractValue(v(5)),
        &Operand::AbstractValue(v(9)),
    );
    assert!(result.is_sat());
    assert_eq!(f.get_var_repr(v(5)), v(2));
    assert!(apart(&f));
}

#[test]
fn forgetting_twice_is_forgetting_once() {
    let mut f = Formula::ttrue();
    assert!(f.and_equal_linear(v(1), plus(2, 1)).is_sat());
    assert!(f.and_equal_linear(v(3), plus(4, 1)).is_sat());
    assert!(f
        .and_not_equal(&Operand::AbstractValue(v(2)), &Operand::ConstOperand(0))
        .is_sat());
    let mut keep = ValueSet::new();
    keep.insert(v(1));
    keep.insert(v(2));
    f.simplify(&keep);
    let once = f.to_string();
    assert_eq!(once, "v1 = v2+1 ∧ v2 ≠ 0");
    f.simplify(&keep);
    assert_eq!(f.to_string(), once);
}

#[test]
fn expanding_twice_is_expanding_once() {
    let mut f = Formula::ttrue();
    assert!(f.and_equal_linear(v(1), plus(2, 1)).is_sat());
    assert!(f.and_fn_app(v(5), "g", &vec![v(2)]).is_sat());
    let mut seed = ValueSet::new();
    seed.insert(v(5));
    let once = expand_formula_reachable(&f, &seed);
    let listed = |s: &ValueSet| -> Vec<i64> { (0..s.len()).map(|i| s.at(i).raw()).collect() };
    assert_eq!(listed(&once), vec![1, 2, 5]);
    assert_eq!(listed(&expand_formula_reachable(&f, &once)), vec![1, 2, 5]);
}
