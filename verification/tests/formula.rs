use pulse::abstract_value::{AbstractValue, FreshCounters};
use pulse::binop::Binop;
use pulse::formula::atom::Atom;
use pulse::formula::lin_arith::LinArith;
use pulse::formula::resolve::ValueSet;
use pulse::formula::term::Term;
use pulse::formula::{Formula, Operand};
use pulse::rational::Q;

fn value_set(values: Vec<AbstractValue>) -> ValueSet {
    let mut set = ValueSet::new();
    for v in values {
        set.insert(v);
    }
    set
}

#[test]
fn test_ttrue() {
    let f = Formula::ttrue();
    let v = AbstractValue::of_raw(1);
    assert!(!f.is_known_zero(v));
}

#[test]
fn test_equal_const_zero() {
    let mut f = Formula::ttrue();
    let v = AbstractValue::of_raw(1);
    let result = f.and_equal_const(v, 0);
    assert!(result.is_sat());
    assert!(f.is_known_zero(v));
}

#[test]
fn test_equal_vars_propagates_const() {
    let mut f = Formula::ttrue();
    let v1 = AbstractValue::of_raw(1);
    let v2 = AbstractValue::of_raw(2);

    f.and_equal_const(v1, 0);
    f.and_equal_vars(v1, v2);
    assert!(f.is_known_zero(v2));
}

#[test]
fn mod_test_contradiction_different_constants() {
    let mut f = Formula::ttrue();
    let v = AbstractValue::of_raw(1);

    f.and_equal_const(v, 0);
    let result = f.and_equal_const(v, 42);
    assert!(result.is_unsat());
}

#[test]
fn test_contradiction_via_vars() {
    let mut f = Formula::ttrue();
    let v1 = AbstractValue::of_raw(1);
    let v2 = AbstractValue::of_raw(2);

    f.and_equal_const(v1, 0);
    f.and_equal_const(v2, 42);
    let result = f.and_equal_vars(v1, v2);
    assert!(result.is_unsat());
}

#[test]
fn test_not_equal_contradiction() {
    let mut f = Formula::ttrue();
    let v = AbstractValue::of_raw(1);

    f.and_equal_const(v, 0);
    let result = f.and_not_equal(&Operand::AbstractValue(v), &Operand::ConstOperand(0));
    assert!(result.is_unsat());
}

#[test]
fn test_prune_null_check() {
    let mut f = Formula::ttrue();
    let p = AbstractValue::of_raw(1);
    let null_val = AbstractValue::of_raw(2);

    f.and_equal_const(null_val, 0);

    // True branch: p ≠ null → p is not null
    let mut f_true = f.clone();
    let result = f_true.prune_eq(p, null_val, true);
    assert!(result.is_sat());
    assert!(!f_true.is_known_zero(p));

    // False branch: p = null → p IS null
    let mut f_false = f.clone();
    let result = f_false.prune_eq(p, null_val, false);
    assert!(result.is_sat());
    assert!(f_false.is_known_zero(p));
}

#[test]
fn test_prune_records_depth_zero_condition() {
    let mut f = Formula::ttrue();
    let p = AbstractValue::of_raw(1);

    let result = f.prune_eq_const(p, 0, true);
    assert!(result.is_sat());
    assert_eq!(
        f.conditions()
            .get(&Atom::NotEqual(Term::Var(p), Term::Const(0))),
        Some(&0)
    );
}

#[test]
fn test_simplify_drops_unreachable_conditions() {
    let mut f = Formula::ttrue();
    let p = AbstractValue::of_raw(1);

    let result = f.prune_eq_const(p, 0, true);
    assert!(result.is_sat());
    f.simplify(&ValueSet::new());

    assert!(
        f.conditions().is_empty(),
        "conditions on dead values should not survive summary simplification"
    );
}

#[test]
fn test_simplify_keeps_reachable_conditions_even_if_implied_by_phi() {
    let mut f = Formula::ttrue();
    let p = AbstractValue::of_raw(1);

    let result = f.prune_eq_const(p, 0, false);
    assert!(result.is_sat());
    f.simplify(&value_set(vec![p]));

    assert_eq!(
        f.conditions().len(),
        1,
        "reachable prune conditions must survive simplification for manifestness checks"
    );
}

#[test]
fn test_simplify_keeps_original_nontrivial_local_condition_shape() {
    let mut f = Formula::ttrue();
    let x = AbstractValue::of_raw(1);
    let y = AbstractValue::of_raw(2);

    let result = f.prune_eq(x, y, false);
    assert!(result.is_sat());
    f.simplify(&value_set(vec![x]));

    assert!(
        f.conditions()
            .contains_key(&Atom::Equal(Term::Var(x), Term::Var(y))),
        "conditions should keep their original variables instead of collapsing to x = x"
    );
}

#[test]
fn test_simplify_for_summary_drops_redundant_non_precondition_equality() {
    let mut f = Formula::ttrue();
    let x = AbstractValue::of_raw(1);
    let y = AbstractValue::of_raw(2);

    assert!(f.prune_eq(x, y, false).is_sat());
    f.simplify_for_summary(&value_set(vec![x]), &value_set(vec![x]), &mut FreshCounters::new());

    assert!(
        f.conditions().is_empty(),
        "summary simplification should drop equality conditions that only mention dead callee-local aliases"
    );
}

#[test]
fn test_simplify_for_summary_rewrites_dead_const_guard_to_visible_alias() {
    let mut f = Formula::ttrue();
    let x = AbstractValue::of_raw(1);
    let y = AbstractValue::of_raw(2);

    assert!(f.prune_eq_const(y, 0, false).is_sat());
    assert!(f.and_equal_vars(x, y).is_sat());
    f.simplify_for_summary(&value_set(vec![x]), &value_set(vec![x]), &mut FreshCounters::new());

    assert_eq!(
        f.conditions().get(&Atom::Equal(Term::Var(x), Term::Const(0))),
        Some(&0),
        "summary simplification should rewrite dead condition vars onto the visible precondition alias instead of erasing the caller-controlled guard"
    );
}

#[test]
fn test_simplify_for_summary_rewrites_dead_linear_guard_to_visible_operands() {
    let mut f = Formula::ttrue();
    let x = AbstractValue::of_raw(1);
    let neg_x = AbstractValue::of_raw(2);

    assert!(f
        .and_equal_linear(neg_x, LinArith::of_var(x).neg())
        .is_sat());
    assert!(f
        .and_condition_direct(Atom::Equal(Term::Var(neg_x), Term::Const(0)), 1)
        .is_sat());
    f.simplify_for_summary(
        &value_set(vec![x, neg_x]),
        &value_set(vec![x]),
        &mut FreshCounters::new(),
    );

    assert!(
        !f.conditions().is_empty(),
        "expected the imported linear guard to survive summary simplification"
    );
    let only_condition = f.conditions().key_at(0);
    let condition_vars = value_set(only_condition.all_vars());
    assert_eq!(
        condition_vars,
        value_set(vec![x]),
        "summary simplification should rewrite dead arithmetic temps back to visible operands"
    );
    assert_ne!(
        only_condition.is_trivially_true(),
        Some(true),
        "summary simplification should not erase caller-controlled linear guards"
    );
}

#[test]
fn test_simplify_for_summary_drops_conditions_outside_precondition_vocabulary() {
    // Caller-invisible callee-local conditions
    // (e.g. the `0 < ret` recorded by `free`'s prune_positive on a value
    // that escaped via a heap edge but whose only formula-graph link is
    // through dead vars) must be dropped from the exported summary's
    // `conditions`.
    let mut f = Formula::ttrue();
    let formal = AbstractValue::of_raw(1);
    let post_only = AbstractValue::of_raw(2);

    // Pruning records the atom both in phi and in the conditions.
    assert!(f
        .prune_less_than(
            &Operand::ConstOperand(0),
            &Operand::AbstractValue(post_only)
        )
        .is_sat());

    // `formula_reachable` (keep) sees `post_only` because some heap edge
    // pulls it in; `precondition_vocabulary` does not because the formula
    // graph never connects it to the formal.
    let precondition_vocabulary = value_set(vec![formal]);
    let keep = value_set(vec![formal, post_only]);
    f.simplify_for_summary(&precondition_vocabulary, &keep, &mut FreshCounters::new());

    assert!(
        !f.conditions()
            .contains_key(&Atom::LessThan(Term::Const(0), Term::Var(post_only))),
        "conditions on values outside the precondition-vocabulary closure should be dropped"
    );
    assert!(
        f.phi()
            .atoms
            .contains(&Atom::LessThan(Term::Const(0), Term::Var(post_only))),
        "pure positive atoms without a restricted/tableau witness should survive summary export"
    );
}

#[test]
fn test_forget_constraints_involving_drops_conditions_and_phi_facts() {
    let mut f = Formula::ttrue();
    let x = AbstractValue::of_raw(1);
    let y = AbstractValue::of_raw(2);

    assert!(f.prune_eq_const(x, 0, false).is_sat());
    assert!(f
        .prune_less_than(&Operand::ConstOperand(0), &Operand::AbstractValue(y))
        .is_sat());

    f.forget_constraints_involving(&value_set(vec![y]));

    assert_eq!(
        f.conditions()
            .get(&Atom::Equal(Term::Var(x), Term::Const(0))),
        Some(&0)
    );
    assert!(
        !f.conditions()
            .contains_key(&Atom::LessThan(Term::Const(0), Term::Var(y))),
        "forgotten roots should not keep remembered summary conditions"
    );
    assert!(
        !f.phi()
            .atoms
            .contains(&Atom::LessThan(Term::Const(0), Term::Var(y))),
        "forgotten roots should not keep pure phi atoms either"
    );
}

#[test]
fn test_and_condition_direct_drops_imported_tautology_after_normalization() {
    let mut f = Formula::ttrue();
    let x = AbstractValue::of_raw(1);
    let y = AbstractValue::of_raw(2);

    assert!(f.and_equal_vars(x, y).is_sat());
    assert!(f
        .and_condition_direct(Atom::Equal(Term::Var(x), Term::Var(y)), 1)
        .is_sat());

    assert!(
        f.conditions().is_empty(),
        "imported conditions already implied by phi should not stay as tautological remembered conditions"
    );
}

#[test]
fn test_and_condition_direct_normalizes_imported_condition_to_known_constant() {
    let mut f = Formula::ttrue();
    let x = AbstractValue::of_raw(1);
    let y = AbstractValue::of_raw(2);

    assert!(f.and_equal_const(y, 0).is_sat());
    assert!(f
        .and_condition_direct(Atom::Equal(Term::Var(x), Term::Var(y)), 2)
        .is_sat());

    assert_eq!(
        f.conditions()
            .get(&Atom::Equal(Term::Var(x), Term::Const(0))),
        Some(&2),
        "imported conditions should be remembered in normalized caller-space form"
    );
}

#[test]
fn test_linear_arithmetic() {
    let mut f = Formula::ttrue();
    let x = AbstractValue::of_raw(1);
    let y = AbstractValue::of_raw(2);

    // x = y + 1
    let lin = LinArith::of_var(y).add(&LinArith::of_int(1));
    f.and_equal_linear(x, lin);

    // y = 0 → x = 1
    f.and_equal_const(y, 0);
    assert_eq!(f.is_known_const(x), Some(Q::from_integer(1)));
}

#[test]
fn test_integer_var_rejects_non_integer_constant_solution() {
    let mut f = Formula::ttrue();
    let x = AbstractValue::of_raw(1);

    f.and_is_int(x);
    let result = f.and_equal_linear(x, LinArith::of_q(Q::new(1, 2)));

    assert!(
        result.is_unsat(),
        "integer-typed variables should reject non-integer constant solutions"
    );
}

#[test]
fn test_binop_plus() {
    let mut f = Formula::ttrue();
    let x = AbstractValue::of_raw(1);
    let y = AbstractValue::of_raw(2);
    let z = AbstractValue::of_raw(3);

    // z = x + y
    f.and_equal_binop(
        z,
        Binop::PlusA(None),
        &Operand::AbstractValue(x),
        &Operand::AbstractValue(y),
    );

    // x = 3, y = 4 → z = 7
    f.and_equal_const(x, 3);
    f.and_equal_const(y, 4);
    assert_eq!(f.is_known_const(z), Some(Q::from_integer(7)));
}

#[test]
fn test_and_equal_binop_reuses_direct_term_value_index_hit() {
    let mut f = Formula::ttrue();
    let x = AbstractValue::of_raw(1);
    let y = AbstractValue::of_raw(2);
    let first_result = AbstractValue::of_raw(3);
    let second_result = AbstractValue::of_raw(4);
    let op = Binop::PlusA(None);

    assert!(f
        .and_equal_binop(
            first_result,
            op.clone(),
            &Operand::AbstractValue(x),
            &Operand::AbstractValue(y),
        )
        .is_sat());
    assert!(f
        .and_equal_binop(
            second_result,
            op,
            &Operand::AbstractValue(x),
            &Operand::AbstractValue(y),
        )
        .is_sat());

    assert_eq!(
        f.get_var_repr(second_result),
        f.get_var_repr(first_result),
        "repeated BinOps on the same canonical operands should reuse the first result"
    );
}

#[test]
fn test_stale_term_value_index_after_alias_mints_fresh_consistent_value() {
    let mut f = Formula::ttrue();
    let alias = AbstractValue::of_raw(1);
    let y = AbstractValue::of_raw(2);
    let x = AbstractValue::of_raw(10);
    let first_result = AbstractValue::of_raw(20);
    let second_result = AbstractValue::of_raw(21);
    let op = Binop::Lt;

    assert!(f
        .and_equal_binop(
            first_result,
            op.clone(),
            &Operand::AbstractValue(x),
            &Operand::AbstractValue(y),
        )
        .is_sat());
    assert!(f.and_equal_vars(x, alias).is_sat());
    assert_eq!(
        f.get_var_repr(x),
        alias,
        "the alias must become x's representative to make the old term_value_index key stale"
    );

    assert!(f
        .and_equal_binop(
            second_result,
            op,
            &Operand::AbstractValue(alias),
            &Operand::AbstractValue(y),
        )
        .is_sat());
    assert_ne!(
        f.get_var_repr(second_result),
        f.get_var_repr(first_result),
        "stale alias misses should not repair/reuse the old term_value_index entry"
    );

    assert!(f.prune_eq_const(first_result, 0, true).is_sat());
    assert!(f.prune_eq_const(second_result, 0, true).is_sat());
    assert!(
        f.conditions()
            .contains_key(&Atom::LessThan(Term::Var(alias), Term::Var(y))),
        "both stale and fresh comparison values should prune to the same consistent alias < y fact"
    );
}

#[test]
fn test_stale_term_value_index_after_constant_folding_mints_fresh_consistent_value() {
    let mut f = Formula::ttrue();
    let x = AbstractValue::of_raw(1);
    let y = AbstractValue::of_raw(2);
    let first_result = AbstractValue::of_raw(3);
    let second_result = AbstractValue::of_raw(4);
    let op = Binop::Lt;

    assert!(f
        .and_equal_binop(
            first_result,
            op.clone(),
            &Operand::AbstractValue(x),
            &Operand::AbstractValue(y),
        )
        .is_sat());
    assert!(f.and_equal_const(x, 3).is_sat());

    assert!(f
        .and_equal_binop(
            second_result,
            op,
            &Operand::AbstractValue(x),
            &Operand::AbstractValue(y),
        )
        .is_sat());
    assert_ne!(
        f.get_var_repr(second_result),
        f.get_var_repr(first_result),
        "stale constant-folding misses should not repair/reuse the old term_value_index entry"
    );

    assert!(f.prune_eq_const(first_result, 0, true).is_sat());
    assert!(f.prune_eq_const(second_result, 0, true).is_sat());
    assert!(
        f.conditions()
            .contains_key(&Atom::LessThan(Term::Const(3), Term::Var(y))),
        "both stale and fresh comparison values should prune to the same consistent 3 < y fact"
    );
}

#[test]
fn test_prune_cached_comparison_refines_operands_via_canonical_term_eq() {
    // Build two `Lt` comparisons on the same canonical operands.
    // The second `and_equal_binop` should hit the `term_value_index`
    // cache and unify its result with the first comparison's result.
    // Pruning the cached result must still resolve back to the
    // original comparison's `term_eqs` entry (via the canonical repr)
    // so the operands get refined just like the first prune would.
    let mut f = Formula::ttrue();
    let x = AbstractValue::of_raw(1);
    let y = AbstractValue::of_raw(2);
    let first_cmp = AbstractValue::of_raw(3);
    let second_cmp = AbstractValue::of_raw(4);
    let op = Binop::Lt;

    assert!(f
        .and_equal_binop(
            first_cmp,
            op.clone(),
            &Operand::AbstractValue(x),
            &Operand::AbstractValue(y),
        )
        .is_sat());
    assert!(f
        .and_equal_binop(
            second_cmp,
            op,
            &Operand::AbstractValue(x),
            &Operand::AbstractValue(y),
        )
        .is_sat());

    // Sanity: cache hit unified the two comparison results.
    assert_eq!(
        f.get_var_repr(second_cmp),
        f.get_var_repr(first_cmp),
        "repeated comparison should reuse the cached representative"
    );
    // Sanity: term_eqs is only keyed under the canonical repr (the
    // first comparison's value), not under the freshly minted second
    // result. Union-find keeps the lower raw id as representative, so
    // first_cmp is the stable representative here.
    let cmp_repr = f.get_var_repr(first_cmp);
    assert_eq!(
        cmp_repr, first_cmp,
        "the first comparison should be the representative that owns the term_eq"
    );
    assert!(
        f.phi().term_eqs.contains_key(&cmp_repr),
        "term_eqs should still be keyed under the canonical comparison value"
    );
    assert_ne!(
        cmp_repr, second_cmp,
        "the test only exercises the canonical lookup if the second result is not itself the repr"
    );

    // Prune the cached (second) result truthy: x < y should follow.
    let truthy = f.prune_eq_const(second_cmp, 0, true);
    assert!(
        truthy.is_sat(),
        "pruning the cached comparison truthy must remain Sat"
    );
    assert!(
        f.conditions()
            .contains_key(&Atom::LessThan(Term::Var(x), Term::Var(y))),
        "pruning the cached comparison result truthy must record the original `x < y` refinement, \
         not collapse to a generic `v != 0` atom"
    );
}

#[test]
fn test_prune_comparison_keeps_direct_term_eq_after_result_merge() {
    // Direct lookup must still win when a comparison value keeps its
    // term_eq entry under the original key but is later merged into a
    // simpler representative.
    let mut f = Formula::ttrue();
    let alias = AbstractValue::of_raw(1);
    let cmp = AbstractValue::of_raw(10);
    let x = AbstractValue::of_raw(20);
    let y = AbstractValue::of_raw(21);

    assert!(f
        .and_equal_binop(
            cmp,
            Binop::Lt,
            &Operand::AbstractValue(x),
            &Operand::AbstractValue(y),
        )
        .is_sat());
    assert!(
        f.phi().term_eqs.contains_key(&cmp),
        "the comparison's term_eq starts under the raw comparison value"
    );

    assert!(f.and_equal_vars(cmp, alias).is_sat());
    assert_eq!(
        f.get_var_repr(cmp),
        alias,
        "union-find keeps the lower raw id as the representative, so pruning cmp exercises the direct term_eq lookup"
    );

    let truthy = f.prune_eq_const(cmp, 0, true);
    assert!(
        truthy.is_sat(),
        "pruning the merged comparison truthy must remain Sat"
    );
    assert!(
        f.conditions()
            .contains_key(&Atom::LessThan(Term::Var(x), Term::Var(y))),
        "direct term_eq lookup should preserve the original comparison refinement"
    );
}

#[test]
fn test_prune_eq_const_nonzero_skips_comparison_term_eq() {
    let mut f = Formula::ttrue();
    let x = AbstractValue::of_raw(1);
    let y = AbstractValue::of_raw(2);
    let cmp = AbstractValue::of_raw(3);

    assert!(f
        .and_equal_binop(
            cmp,
            Binop::Lt,
            &Operand::AbstractValue(x),
            &Operand::AbstractValue(y),
        )
        .is_sat());

    let result = f.prune_eq_const(cmp, 1, false);
    assert!(
        result.is_sat(),
        "pruning comparison result to a non-zero const should stay Sat"
    );
    assert!(
        f.conditions()
            .contains_key(&Atom::Equal(Term::Var(cmp), Term::Const(1))),
        "non-zero constants should use the generic equality condition rather than the comparison term_eq path"
    );
    assert!(
        !f.conditions()
            .contains_key(&Atom::LessThan(Term::Var(x), Term::Var(y))),
        "the comparison term_eq path should only run for zero pruning"
    );
}

#[test]
fn test_pure_int_fn_app_collision_makes_odd_doubled_sum_unsat() {
    let mut f = Formula::ttrue();
    let x1 = AbstractValue::of_raw(1);
    let x2 = AbstractValue::of_raw(2);
    let sum = AbstractValue::of_raw(3);

    f.and_is_int(x1);
    let first = f.and_fn_app(x1, "pure_offset", &vec![]);
    assert!(first.is_sat());

    f.and_is_int(x2);
    let second = f.and_fn_app(x2, "pure_offset", &vec![]);
    assert!(
        second.is_sat(),
        "repeated pure calls should unify, not fail immediately"
    );
    assert_eq!(
        f.get_var_repr(x2),
        f.get_var_repr(x1),
        "repeated pure calls with identical actuals should unify return values"
    );
    assert!(
        f.phi().is_marked_int(x1),
        "the canonical pure-call result should remain marked integer-typed"
    );

    let sum_eq = f.and_equal_binop(
        sum,
        Binop::PlusA(None),
        &Operand::AbstractValue(x1),
        &Operand::AbstractValue(x2),
    );
    assert!(sum_eq.is_sat());

    let odd = f.prune_eq_const(sum, 1, false);
    assert!(
        odd.is_unsat(),
        "if pure_offset() is int and pure, pure_offset()+pure_offset()==1 is impossible"
    );
}

#[test]
fn test_binop_minus() {
    let mut f = Formula::ttrue();
    let x = AbstractValue::of_raw(1);
    let y = AbstractValue::of_raw(2);
    let z = AbstractValue::of_raw(3);

    // z = x - y
    f.and_equal_binop(
        z,
        Binop::MinusA(None),
        &Operand::AbstractValue(x),
        &Operand::AbstractValue(y),
    );

    // x = 10, y = 3 → z = 7
    f.and_equal_const(x, 10);
    f.and_equal_const(y, 3);
    assert_eq!(f.is_known_const(z), Some(Q::from_integer(7)));
}

#[test]
fn test_singleton_interval_propagates_back_through_minus_linear_eq() {
    let mut f = Formula::ttrue();
    let i = AbstractValue::of_raw(1);
    let i_minus_one = AbstractValue::of_raw(2);

    f.and_is_int(i);
    f.and_is_int(i_minus_one);
    assert!(f.and_positive(i).is_sat());
    assert!(f
        .and_equal_binop(
            i_minus_one,
            Binop::MinusA(None),
            &Operand::AbstractValue(i),
            &Operand::ConstOperand(1),
        )
        .is_sat());
    assert!(f
        .and_less_equal(
            &Operand::AbstractValue(i_minus_one),
            &Operand::ConstOperand(0)
        )
        .is_sat());

    assert_eq!(
        f.is_known_const(i_minus_one),
        Some(Q::from_integer(0)),
        "the recursive actual should collapse to zero on the base branch"
    );
    assert_eq!(
        f.is_known_const(i),
        Some(Q::from_integer(1)),
        "singleton intervals should feed back through x = (i - 1) so the caller-visible i becomes 1"
    );
}

#[test]
fn test_binop_comparison_with_constants() {
    let mut f = Formula::ttrue();
    let x = AbstractValue::of_raw(1);
    let y = AbstractValue::of_raw(2);
    let r = AbstractValue::of_raw(3);

    // r = (x == y) where x=5, y=5 → r=1
    f.and_equal_const(x, 5);
    f.and_equal_const(y, 5);
    f.and_equal_binop(
        r,
        Binop::Eq,
        &Operand::AbstractValue(x),
        &Operand::AbstractValue(y),
    );
    assert_eq!(f.is_known_const(r), Some(Q::from_integer(1)));
}

#[test]
fn test_binop_comparison_non_constant() {
    let mut f = Formula::ttrue();
    let x = AbstractValue::of_raw(1);
    let y = AbstractValue::of_raw(2);
    let r = AbstractValue::of_raw(3);

    // r = (x == y) where x and y are unknown → r is unconstrained
    let result = f.and_equal_binop(
        r,
        Binop::Eq,
        &Operand::AbstractValue(x),
        &Operand::AbstractValue(y),
    );
    assert!(result.is_sat(), "non-constant comparison should be Sat");
    assert_eq!(f.is_known_const(r), None, "result should be unconstrained");
    assert!(
        f.phi().is_marked_int(r),
        "comparison results should stay integer-typed even before pruning"
    );
}

#[test]
fn test_binop_mod_constant() {
    let mut f = Formula::ttrue();
    let x = AbstractValue::of_raw(1);
    let y = AbstractValue::of_raw(2);
    let r = AbstractValue::of_raw(3);

    // r = 4 % 4 → r = 0
    f.and_equal_const(x, 4);
    f.and_equal_const(y, 4);
    f.and_equal_binop(
        r,
        Binop::Mod,
        &Operand::AbstractValue(x),
        &Operand::AbstractValue(y),
    );
    assert_eq!(f.is_known_const(r), Some(Q::from_integer(0)));
}

#[test]
fn test_binop_div_constant() {
    let mut f = Formula::ttrue();
    let x = AbstractValue::of_raw(1);
    let y = AbstractValue::of_raw(2);
    let r = AbstractValue::of_raw(3);

    // r = 10 / 3 → r = 3 (integer division)
    f.and_equal_const(x, 10);
    f.and_equal_const(y, 3);
    f.and_equal_binop(
        r,
        Binop::DivI,
        &Operand::AbstractValue(x),
        &Operand::AbstractValue(y),
    );
    assert_eq!(f.is_known_const(r), Some(Q::from_integer(3)));
}

#[test]
fn test_simplify_for_summary_exports_restricted_witness_for_le_guard() {
    let mut f = Formula::ttrue();
    let x = AbstractValue::of_raw(1);

    assert!(f
        .prune_less_equal(&Operand::AbstractValue(x), &Operand::ConstOperand(5))
        .is_sat());
    f.simplify_for_summary(
        &value_set(vec![x]),
        &value_set(vec![x]),
        &mut FreshCounters::new(),
    );

    let lin = f
        .phi()
        .linear_eqs
        .get(&x)
        .expect("visible inequality should export an affine witness equality");
    assert_eq!(lin.constant, Q::from_integer(5));
    assert_eq!(lin.vars.len(), 1);
    let (witness, coeff) = (lin.vars.key_at(0), lin.vars.value_at(0));
    assert!(witness.is_restricted());
    assert_eq!(*coeff, Q::from_integer(-1));
}

#[test]
fn test_simplify_for_summary_exports_restricted_witness_for_strict_gt_guard() {
    let mut f = Formula::ttrue();
    let x = AbstractValue::of_raw(1);

    assert!(f
        .prune_less_than(&Operand::ConstOperand(5), &Operand::AbstractValue(x))
        .is_sat());
    f.simplify_for_summary(
        &value_set(vec![x]),
        &value_set(vec![x]),
        &mut FreshCounters::new(),
    );

    let lin = f
        .phi()
        .linear_eqs
        .get(&x)
        .expect("strict visible inequality should export an affine witness equality");
    assert_eq!(lin.constant, Q::from_integer(6));
    assert_eq!(lin.vars.len(), 1);
    let (witness, coeff) = (lin.vars.key_at(0), lin.vars.value_at(0));
    assert!(witness.is_restricted());
    assert_eq!(*coeff, Q::from_integer(1));
}

#[test]
fn test_simplify_for_summary_does_not_export_witness_on_formula_only_temp() {
    let mut f = Formula::ttrue();
    let i = AbstractValue::of_raw(1);
    let recursive_temp = AbstractValue::of_raw(2);

    assert!(f
        .and_equal_linear(
            i,
            LinArith::of_var(recursive_temp).add(&LinArith::of_int(2))
        )
        .is_sat());
    assert!(f
        .prune_less_than(
            &Operand::ConstOperand(0),
            &Operand::AbstractValue(recursive_temp),
        )
        .is_sat());
    f.simplify_for_summary_with_witness_targets(
        &value_set(vec![i]),
        &value_set(vec![i, recursive_temp]),
        &value_set(vec![i]),
        &mut FreshCounters::new(),
    );

    assert!(
        !f.phi().linear_eqs.contains_key(&recursive_temp),
        "formula-only temps kept alive through an exported affine equality must not receive a \
         synthesized restricted witness"
    );
    let lin = f
        .phi()
        .linear_eqs
        .get(&i)
        .expect("visible affine equality should remain exported");
    assert_eq!(
        lin.get_coefficient(recursive_temp),
        Some(&Q::from_integer(1)),
        "the existing visible equality should still keep the temp available for canonicalization"
    );
}
