//! Rewriting, comparisons, ranges and path conditions lose no solution.

use super::Operand;
use super::atom::{atom_holds, law_atom_trivial, law_negate, Atom};
use super::citv::{lemma_binop_abduced, lemma_eq_abduced, AbductionResult, Bound, CItv};
use super::formula_model::{
    check_ranges, equal_operands, itv_or_all, less, not_equal, operand_itv, operand_term,
    order_atom, prune_equal, prune_order, refine_operand, FormulaModel,
};
use super::lin_arith::{
    coeff_value, coeffs_wf, law_scale, law_sub, lemma_lin_basics, lin_as_const, lin_const, lin_sub,
    lin_value, lin_var, lin_wf, sum, Coeffs, Lin, Valuation,
};
use super::meaning::{
    faithful, is_whole, law_run_linear_eq, law_run_var_equal, lemma_as_const, lemma_eq_value,
    lemma_eq_wf, lemma_repr_value, models, phi_wf, whole,
};
use super::resolve::{
    added_term, condition_resolving, condition_sum, condition_var, constant_part, first_solution,
    folded_add, folded_mult, folded_neg, folded_sub, folded_test, normalized_condition, rebuilt,
    rebuilt_atom, resolved_atom, resolved_var, resolving, scaled_term, solved_for, summarized_atom,
    summarizing, visible_sum, visible_term, visible_var,
};
use super::solver::{
    filtered, known_const, refined_itv, run_atom, run_const_eq, run_interval, run_linear_eq,
    run_var_equal, PhiModel,
};
use super::term::{
    law_term_const, lemma_term_of_q, term_const, term_of_q, term_value, term_vars, Term,
};
use super::var_uf::repr;
use crate::abstract_value::AbstractValue;
use crate::binop::Binop;
use crate::ordered::{
    del, lemma_filter_members, lemma_lookup_has_key, lemma_put_members, lemma_set_put_contains,
    lemma_set_put_sorted, lookup, put, set_put, sorted,
};
use crate::rational::{lemma_int_wf, lemma_q_div, lemma_q_tests, q_div, q_int, Q};
use vstd::prelude::*;

verus! {

proof fn lemma_folds(a: Term, b: Term, rho: Valuation)
    ensures
        folded_add(a, b) matches Some(t) ==> term_value(t, rho) == term_value(a, rho) + term_value(
            b,
            rho,
        ),
        folded_sub(a, b) matches Some(t) ==> term_value(t, rho) == term_value(a, rho) - term_value(
            b,
            rho,
        ),
        folded_mult(a, b) matches Some(t) ==> term_value(t, rho) == term_value(a, rho) * term_value(
            b,
            rho,
        ),
{
    law_term_const(a, rho);
    law_term_const(b, rho);
    if let (Some(Some(x)), Some(Some(y))) = (term_const(a), term_const(b)) {
        let (xi, yi) = (x as int, y as int);
        assert((xi * yi) as real == (xi as real) * (yi as real)) by (nonlinear_arith);
    }
}

proof fn lemma_unary_folds(a: Term, rho: Valuation)
    ensures
        folded_neg(a) matches Some(t) ==> term_value(t, rho) == -term_value(a, rho),
        folded_test(a, Term::Not(Box::new(a))) matches Some(t) ==> term_value(t, rho)
            == term_value(Term::Not(Box::new(a)), rho),
        folded_test(a, Term::IsZero(Box::new(a))) matches Some(t) ==> term_value(t, rho)
            == term_value(Term::IsZero(Box::new(a)), rho),
{
    law_term_const(a, rho);
}

/// Rebuilding a term from variables that keep their values keeps its value.
pub proof fn law_rebuilt(
    t: Term,
    f: spec_fn(AbstractValue) -> Option<Term>,
    fold_not: bool,
    rho: Valuation,
)
    requires
        forall|v: AbstractValue|
            (#[trigger] f(v)) matches Some(u) ==> term_value(u, rho) == rho(v),
        rebuilt(t, f, fold_not) is Some,
    ensures
        term_value(rebuilt(t, f, fold_not)->0, rho) == term_value(t, rho),
    decreases t,
{
    match t {
        Term::Var(v) => {
            assert(f(v) is Some);
        },
        Term::Add(a, b) | Term::Sub(a, b) | Term::Mult(a, b) => {
            law_rebuilt(*a, f, fold_not, rho);
            law_rebuilt(*b, f, fold_not, rho);
            lemma_folds(rebuilt(*a, f, fold_not)->0, rebuilt(*b, f, fold_not)->0, rho);
        },
        Term::Neg(a) | Term::Not(a) | Term::IsZero(a) => {
            law_rebuilt(*a, f, fold_not, rho);
            lemma_unary_folds(rebuilt(*a, f, fold_not)->0, rho);
        },
        _ => {},
    }
}

proof fn lemma_rebuilt_atom(
    a: Atom,
    f: spec_fn(AbstractValue) -> Option<Term>,
    fold_not: bool,
    rho: Valuation,
)
    requires
        forall|v: AbstractValue|
            (#[trigger] f(v)) matches Some(u) ==> term_value(u, rho) == rho(v),
        rebuilt_atom(a, f, fold_not) is Some,
    ensures
        atom_holds(rebuilt_atom(a, f, fold_not)->0, rho) == atom_holds(a, rho),
{
    law_rebuilt(a.lhs(), f, fold_not, rho);
    law_rebuilt(a.rhs(), f, fold_not, rho);
}

proof fn lemma_resolved_var(m: PhiModel, v: AbstractValue, rho: Valuation)
    requires
        phi_wf(m),
        models(m, rho),
    ensures
        term_value(resolved_var(m, v), rho) == rho(v),
{
    let r = repr(m.eqs, v);
    lemma_repr_value(m, v, rho);
    lemma_eq_value(m, r, rho);
    lemma_eq_wf(m, r);
    if let Some(l) = lookup(m.lin, r) {
        lemma_as_const(l, rho);
        if let Some(q) = lin_as_const(l) {
            lemma_term_of_q(q, rho);
        }
    }
}

/// Resolving an atom by what a state knows keeps its truth in every valuation
/// of the state.
pub proof fn law_resolved_atom(m: PhiModel, a: Atom, rho: Valuation)
    requires
        phi_wf(m),
        models(m, rho),
        resolved_atom(m, a) is Some,
    ensures
        atom_holds(resolved_atom(m, a)->0, rho) == atom_holds(a, rho),
{
    let f = resolving(m);
    assert forall|v: AbstractValue| (#[trigger] f(v)) matches Some(u) ==> term_value(u, rho)
        == rho(v) by {
        lemma_resolved_var(m, v, rho);
    }
    lemma_rebuilt_atom(a, f, false, rho);
}

/// Recording a comparison keeps every valuation that satisfies it, and
/// reports a contradiction only when there is none.
pub proof fn law_run_atom(m: PhiModel, a: Atom, rho: Valuation)
    requires
        phi_wf(m),
        run_atom(m, a) is Some,
    ensures
        phi_wf((run_atom(m, a)->0).0),
        models(m, rho) && atom_holds(a, rho) ==> faithful(
            (run_atom(m, a)->0).1,
            (run_atom(m, a)->0).0,
            rho,
        ),
{
    let r = resolved_atom(m, a)->0;
    lemma_set_put_sorted::<Atom>(m.atoms, r);
    if models(m, rho) && atom_holds(a, rho) {
        law_resolved_atom(m, a, rho);
        law_atom_trivial(r, rho);
        law_negate(r, rho);
        let s = m.atoms;
        assert forall|b: Atom| s.contains(b) implies atom_holds(b, rho) by {
            let i = choose|i: int| 0 <= i < s.len() && s[i] == b;
            assert(atom_holds(s[i], rho));
        }
        let p = set_put::<Atom>(s, r);
        assert forall|i: int| 0 <= i < p.len() implies atom_holds(#[trigger] p[i], rho) by {
            lemma_set_put_contains::<Atom>(s, r, p[i]);
            assert(p.contains(p[i]));
        }
    }
}

/// A linear sum changes with one of its values by the coefficient.
pub proof fn lemma_sum_update(s: Coeffs, r: AbstractValue, rho: Valuation, sigma: Valuation)
    requires
        sorted::<AbstractValue, Q>(s),
        forall|v: AbstractValue| v != r ==> #[trigger] sigma(v) == rho(v),
        sigma(r) == rho(r) + 1real,
    ensures
        sum(s, sigma) == sum(s, rho) + coeff_value(s, r),
    decreases s.len(),
{
    if s.len() > 0 {
        let t = s.drop_first();
        crate::ordered::lemma_sorted_drop_first::<AbstractValue, Q>(s);
        lemma_sum_update(t, r, rho, sigma);
        if s[0].0 == r {
            lemma_lookup_has_key(t, r);
            if lookup(t, r) is Some {
                let i = choose|i: int| 0 <= i < t.len() && (#[trigger] t[i]).0 == r;
                assert(s[0].0.0 < s[i + 1].0.0);
            }
            let (q, x) = (s[0].1.value(), rho(r));
            assert(q * (x + 1real) == q * x + q) by (nonlinear_arith);
        }
    }
}

proof fn lemma_sum_without(s: Coeffs, r: AbstractValue, rho: Valuation)
    requires
        sorted::<AbstractValue, Q>(s),
    ensures
        sum(del(s, r), rho) == sum(s, rho) - coeff_value(s, r) * rho(r),
    decreases s.len(),
{
    let p = del(s, r);
    if s.len() == 0 {
        let x = rho(r);
        assert(0real * x == 0real) by (nonlinear_arith);
    } else if s[0].0 != r {
        crate::ordered::lemma_sorted_drop_first::<AbstractValue, Q>(s);
        lemma_sum_without(s.drop_first(), r, rho);
        assert(p.drop_first() =~= del(s.drop_first(), r));
    }
}

proof fn lemma_coeffs_without(s: Coeffs, r: AbstractValue)
    requires
        coeffs_wf(s),
    ensures
        coeffs_wf(del(s, r)),
{
    crate::ordered::lemma_del_sorted::<AbstractValue, Q>(s, r);
    assert forall|i: int| 0 <= i < del(s, r).len() implies (#[trigger] del(s, r)[i]).1.wf() && del(
        s,
        r,
    )[i].1.numer != 0 by {
        crate::ordered::lemma_del_members(s, r, i);
        let j = choose|j: int| 0 <= j < s.len() && #[trigger] s[j] == del(s, r)[i];
        assert(s[j].1.wf() && s[j].1.numer != 0);
    }
}

/// Solving an equation for one of its variables gives that variable's value.
proof fn lemma_solved_for(lhs: AbstractValue, l: Lin, r: AbstractValue, rho: Valuation)
    requires
        lin_wf(l),
        lhs != r,
        lookup(l.vars, r) is Some,
        solved_for(lhs, l, r) matches Some(Some(_)),
    ensures
        lin_wf(solved_for(lhs, l, r)->0->0),
        rho(lhs) == lin_value(l, rho) ==> lin_value(solved_for(lhs, l, r)->0->0, rho) == rho(r),
{
    let e = lin_sub(lin_var(lhs), l)->0;
    let sigma: Valuation = |v: AbstractValue|
        if v == r {
            rho(v) + 1real
        } else {
            rho(v)
        };
    lemma_lin_basics(q_int(0), lhs, rho);
    lemma_lin_basics(q_int(0), lhs, sigma);
    law_sub(lin_var(lhs), l, rho);
    law_sub(lin_var(lhs), l, sigma);
    lemma_sum_update(e.vars, r, rho, sigma);
    lemma_sum_update(l.vars, r, rho, sigma);
    let q = lookup(l.vars, r)->0;
    lemma_lookup_has_key(l.vars, r);
    assert(q.wf() && q.numer != 0);
    lemma_q_tests(q);
    assert(coeff_value(e.vars, r) == -q.value());
    lemma_sum_without(e.vars, r, rho);
    lemma_coeffs_without(e.vars, r);
    let w = Lin { c: e.c, vars: del(e.vars, r) };
    lemma_int_wf(1);
    lemma_q_tests(q_int(1));
    lemma_q_div(q_int(1), q);
    let scale = q_div(q_int(1), q)->0;
    law_scale(w, scale, rho);
    if rho(lhs) == lin_value(l, rho) {
        let (a, x) = (q.value(), rho(r));
        assert((-a) * x == -(a * x)) by (nonlinear_arith);
        assert(lin_value(w, rho) == a * x);
        assert((1real / a) * (a * x) == x) by (nonlinear_arith)
            requires
                a != 0real,
        ;
    }
}

proof fn lemma_first_solution(
    s: Seq<(AbstractValue, Lin)>,
    r: AbstractValue,
    rho: Valuation,
)
    requires
        forall|i: int| 0 <= i < s.len() ==> lin_wf((#[trigger] s[i]).1) && s[i].0 != r,
        forall|i: int| 0 <= i < s.len() ==> rho((#[trigger] s[i]).0) == lin_value(s[i].1, rho),
        first_solution(s, r) matches Some(Some(_)),
    ensures
        lin_wf(first_solution(s, r)->0->0),
        lin_value(first_solution(s, r)->0->0, rho) == rho(r),
    decreases s.len(),
{
    if s.len() > 0 {
        let t = s.drop_first();
        assert forall|i: int| 0 <= i < t.len() implies lin_wf((#[trigger] t[i]).1) && t[i].0 != r
            && rho(t[i].0) == lin_value(t[i].1, rho) by {
            assert(t[i] == s[i + 1]);
        }
        assert(lin_wf(s[0].1) && s[0].0 != r && rho(s[0].0) == lin_value(s[0].1, rho));
        if lookup(s[0].1.vars, r) is None {
            lemma_first_solution(t, r, rho);
        } else {
            match solved_for(s[0].0, s[0].1, r) {
                Some(Some(l)) => lemma_solved_for(s[0].0, s[0].1, r, rho),
                _ => lemma_first_solution(t, r, rho),
            }
        }
    }
}

spec fn opt_value(t: Option<Term>, rho: Valuation) -> real {
    match t {
        None => 0real,
        Some(t) => term_value(t, rho),
    }
}

proof fn lemma_scaled_term(q: Q, t: Term, rho: Valuation)
    requires
        q.wf(),
    ensures
        term_value(scaled_term(q, t), rho) == q.value() * term_value(t, rho),
{
    lemma_term_of_q(q, rho);
    let x = term_value(t, rho);
    lemma_q_tests(q);
    assert(1real * x == x && (-1real) * x == -x) by (nonlinear_arith);
    assert((((-1) as i64) as real) / (1i64 as real) == -1real) by (nonlinear_arith);
    assert(term_value(*Box::new(t), rho) == x);
    assert(term_value(*Box::new(term_of_q(q)), rho) == q.value());
}

proof fn lemma_added_term(acc: Option<Term>, t: Term, rho: Valuation)
    requires
        added_term(acc, t) is Some,
    ensures
        term_value(added_term(acc, t)->0, rho) == opt_value(acc, rho) + term_value(t, rho),
{
    if let Some(a) = acc {
        lemma_folds(a, t, rho);
    }
}

proof fn lemma_constant_part(q: Q, rho: Valuation)
    requires
        q.wf(),
    ensures
        opt_value(constant_part(q), rho) == q.value(),
{
    lemma_q_tests(q);
    lemma_term_of_q(q, rho);
}

proof fn lemma_condition_sum(m: PhiModel, s: Coeffs, acc: Option<Term>, rho: Valuation)
    requires
        models(m, rho),
        forall|i: int| 0 <= i < s.len() ==> (#[trigger] s[i]).1.wf(),
        condition_sum(m, s, acc) is Some,
    ensures
        term_value(condition_sum(m, s, acc)->0, rho) == opt_value(acc, rho) + sum(s, rho),
    decreases s.len(),
{
    if s.len() > 0 {
        let v = repr(m.eqs, s[0].0);
        lemma_repr_value(m, s[0].0, rho);
        let t = scaled_term(s[0].1, Term::Var(v));
        assert(s[0].1.wf());
        lemma_scaled_term(s[0].1, Term::Var(v), rho);
        lemma_added_term(acc, t, rho);
        let a = added_term(acc, t)->0;
        assert forall|i: int| 0 <= i < s.drop_first().len() implies (
        #[trigger] s.drop_first()[i]).1.wf() by {
            assert(s.drop_first()[i] == s[i + 1]);
        }
        lemma_condition_sum(m, s.drop_first(), Some(a), rho);
    }
}

proof fn lemma_condition_var(m: PhiModel, v: AbstractValue, rho: Valuation)
    requires
        phi_wf(m),
        models(m, rho),
        condition_var(m, v) is Some,
    ensures
        term_value(condition_var(m, v)->0, rho) == rho(v),
{
    let r = repr(m.eqs, v);
    lemma_resolved_var(m, v, rho);
    lemma_repr_value(m, v, rho);
    if lookup(m.lin, r) is None {
        lemma_lookup_has_key(m.lin, r);
        if let Some(Some(l)) = first_solution(m.lin, r) {
            lemma_first_solution(m.lin, r, rho);
            lemma_constant_part(l.c, rho);
            lemma_condition_sum(m, l.vars, constant_part(l.c), rho);
        }
    }
}

/// The form in which a condition is recorded has the truth of the condition in
/// every valuation of the state.
pub proof fn law_normalized_condition(m: PhiModel, a: Atom, rho: Valuation)
    requires
        phi_wf(m),
        models(m, rho),
        normalized_condition(m, a) is Some,
    ensures
        atom_holds(normalized_condition(m, a)->0, rho) == atom_holds(a, rho),
{
    let f = condition_resolving(m);
    assert forall|v: AbstractValue| (#[trigger] f(v)) matches Some(u) ==> term_value(u, rho)
        == rho(v) by {
        if condition_var(m, v) is Some {
            lemma_condition_var(m, v, rho);
        }
    }
    lemma_rebuilt_atom(a, f, true, rho);
}

proof fn lemma_best_of(
    m: PhiModel,
    s: Seq<AbstractValue>,
    r: AbstractValue,
    best: Option<AbstractValue>,
)
    requires
        best matches Some(b) ==> repr(m.eqs, b) == r,
    ensures
        super::resolve::best_of(m, s, r, best) matches Some(w) ==> repr(m.eqs, w) == r && (
        s.contains(w) || best == Some(w)),
    decreases s.len(),
{
    if s.len() > 0 {
        let t = s.drop_first();
        let next = if repr(m.eqs, s[0]) != r {
            best
        } else {
            match best {
                None => Some(s[0]),
                Some(b) => Some(
                    if super::resolve::preferred(s[0], b) {
                        s[0]
                    } else {
                        b
                    },
                ),
            }
        };
        lemma_best_of(m, t, r, next);
        if let Some(w) = super::resolve::best_of(m, s, r, best) {
            assert(s.contains(s[0]));
            if t.contains(w) {
                let i = choose|i: int| 0 <= i < t.len() && t[i] == w;
                assert(s[i + 1] == w);
            }
        }
    }
}

/// The value under which another is visible is visible and in its class.
pub proof fn law_visible_var(m: PhiModel, keep: Seq<AbstractValue>, v: AbstractValue)
    ensures
        visible_var(m, keep, v) matches Some(w) ==> keep.contains(w) && repr(m.eqs, w) == repr(
            m.eqs,
            v,
        ),
{
    lemma_best_of(m, keep, repr(m.eqs, v), None);
}

pub open spec fn only_visible(keep: Seq<AbstractValue>, t: Term) -> bool {
    forall|i: int| 0 <= i < term_vars(t).len() ==> keep.contains(#[trigger] term_vars(t)[i])
}

proof fn lemma_only_visible_sum(keep: Seq<AbstractValue>, a: Term, b: Term)
    requires
        only_visible(keep, a),
        only_visible(keep, b),
        folded_add(a, b) is Some,
    ensures
        only_visible(keep, folded_add(a, b)->0),
{
    let t = folded_add(a, b)->0;
    if t is Add {
        assert(term_vars(t) == term_vars(a) + term_vars(b));
        assert forall|i: int| 0 <= i < term_vars(t).len() implies keep.contains(
            #[trigger] term_vars(t)[i],
        ) by {
            if i < term_vars(a).len() {
                assert(term_vars(t)[i] == term_vars(a)[i]);
            } else {
                assert(term_vars(t)[i] == term_vars(b)[i - term_vars(a).len()]);
            }
        }
    }
}

/// A term over visible values mentions visible values only and has the value
/// of what it stands for.
pub proof fn law_visible_term(
    m: PhiModel,
    keep: Seq<AbstractValue>,
    v: AbstractValue,
    left: Seq<(AbstractValue, Lin)>,
    rho: Valuation,
)
    requires
        models(m, rho),
        forall|i: int| 0 <= i < left.len() ==> lin_wf((#[trigger] left[i]).1),
        forall|i: int|
            0 <= i < left.len() ==> rho((#[trigger] left[i]).0) == lin_value(left[i].1, rho),
        visible_term(m, keep, v, left) matches Some(Some(_)),
    ensures
        term_value(visible_term(m, keep, v, left)->0->0, rho) == rho(v),
        only_visible(keep, visible_term(m, keep, v, left)->0->0),
    decreases left.len(), 0nat,
{
    law_visible_var(m, keep, v);
    lemma_repr_value(m, v, rho);
    match visible_var(m, keep, v) {
        Some(w) => {
            lemma_repr_value(m, w, rho);
            assert(term_vars(Term::Var(w)) =~= seq![w]);
        },
        None => {
            let r = repr(m.eqs, v);
            lemma_lookup_has_key(left, r);
            let l = lookup(left, r)->0;
            let rest = del(left, r);
            assert forall|i: int| 0 <= i < rest.len() implies lin_wf((#[trigger] rest[i]).1) && rho(
                rest[i].0,
            ) == lin_value(rest[i].1, rho) by {
                crate::ordered::lemma_del_members(left, r, i);
                let j = choose|j: int| 0 <= j < left.len() && #[trigger] left[j] == rest[i];
                assert(lin_wf(left[j].1));
            }
            lemma_constant_part(l.c, rho);
            assert(constant_part(l.c) matches Some(t) ==> term_vars(t) =~= Seq::empty());
            lemma_visible_sum(m, keep, l.vars, constant_part(l.c), rest, rho);
        },
    }
}

proof fn lemma_visible_sum(
    m: PhiModel,
    keep: Seq<AbstractValue>,
    s: Coeffs,
    acc: Option<Term>,
    left: Seq<(AbstractValue, Lin)>,
    rho: Valuation,
)
    requires
        models(m, rho),
        forall|i: int| 0 <= i < left.len() ==> lin_wf((#[trigger] left[i]).1),
        forall|i: int|
            0 <= i < left.len() ==> rho((#[trigger] left[i]).0) == lin_value(left[i].1, rho),
        forall|i: int| 0 <= i < s.len() ==> (#[trigger] s[i]).1.wf(),
        acc matches Some(t) ==> only_visible(keep, t),
        visible_sum(m, keep, s, acc, left) matches Some(Some(_)),
    ensures
        term_value(visible_sum(m, keep, s, acc, left)->0->0, rho) == opt_value(acc, rho) + sum(
            s,
            rho,
        ),
        only_visible(keep, visible_sum(m, keep, s, acc, left)->0->0),
    decreases left.len(), s.len() + 1,
{
    if s.len() == 0 {
        assert(term_vars(Term::Const(0)) =~= Seq::empty());
    } else {
        law_visible_term(m, keep, s[0].0, left, rho);
        let t = visible_term(m, keep, s[0].0, left)->0->0;
        assert(s[0].1.wf());
        lemma_scaled_term(s[0].1, t, rho);
        let u = scaled_term(s[0].1, t);
        assert(term_vars(u) =~= term_vars(t)) by {
            assert(term_vars(term_of_q(s[0].1)) =~= Seq::empty());
            if let Term::Mult(x, y) = u {
                assert(term_vars(u) == term_vars(*x) + term_vars(*y));
            }
        }
        assert(only_visible(keep, u));
        lemma_added_term(acc, u, rho);
        let a = added_term(acc, u)->0;
        if let Some(p) = acc {
            lemma_only_visible_sum(keep, p, u);
        }
        assert forall|i: int| 0 <= i < s.drop_first().len() implies (
        #[trigger] s.drop_first()[i]).1.wf() by {
            assert(s.drop_first()[i] == s[i + 1]);
        }
        lemma_visible_sum(m, keep, s.drop_first(), Some(a), left, rho);
    }
}

/// An exported condition has the truth of the condition in every valuation of
/// the state.
pub proof fn law_summarized_atom(
    m: PhiModel,
    keep: Seq<AbstractValue>,
    a: Atom,
    rho: Valuation,
)
    requires
        phi_wf(m),
        models(m, rho),
        summarized_atom(m, keep, a) is Some,
    ensures
        atom_holds(summarized_atom(m, keep, a)->0, rho) == atom_holds(a, rho),
{
    let f = summarizing(m, keep);
    assert forall|v: AbstractValue| (#[trigger] f(v)) matches Some(u) ==> term_value(u, rho)
        == rho(v) by {
        if let Some(Some(t)) = visible_term(m, keep, v, m.lin) {
            law_visible_term(m, keep, v, m.lin, rho);
        }
        lemma_resolved_var(m, v, rho);
    }
    lemma_rebuilt_atom(a, f, true, rho);
}

/// A real number that is an integer of the range.
pub open spec fn in_range(i: CItv, r: real) -> bool {
    exists|k: int| r == #[trigger] whole(k) && i.has(k)
}

/// The valuation satisfies the state, ranges and comparison results included.
pub open spec fn satisfies(m: PhiModel, rho: Valuation) -> bool {
    &&& models(m, rho)
    &&& forall|i: int| 0 <= i < m.itvs.len() ==> in_range(
        (#[trigger] m.itvs[i]).1,
        rho(m.itvs[i].0),
    )
    &&& forall|i: int|
        0 <= i < m.terms.len() ==> rho((#[trigger] m.terms[i]).0) == comparison_value(
            m.terms[i].1.op,
            operand_value(m.terms[i].1.lhs, rho),
            operand_value(m.terms[i].1.rhs, rho),
        )
}

pub open spec fn operand_value(o: Operand, rho: Valuation) -> real {
    match o {
        Operand::AbstractValue(v) => rho(v),
        Operand::ConstOperand(c) => c as real,
    }
}

/// One where the comparison holds, zero where it does not.
pub open spec fn comparison_value(op: Binop, x: real, y: real) -> real {
    if real_holds(op, x, y) {
        1real
    } else {
        0real
    }
}

pub open spec fn real_holds(op: Binop, x: real, y: real) -> bool {
    match op {
        Binop::Lt => x < y,
        Binop::Gt => x > y,
        Binop::Le => x <= y,
        Binop::Ge => x >= y,
        Binop::Eq => x == y,
        Binop::Ne => x != y,
        _ => false,
    }
}

/// Solving keeps the ranges and comparison results of a state.
proof fn lemma_satisfies_frame(m: PhiModel, n: PhiModel, rho: Valuation)
    requires
        satisfies(m, rho),
        models(n, rho),
        n.itvs == m.itvs,
        n.terms == m.terms,
    ensures
        satisfies(n, rho),
{
}

/// A value in its own range and in a given one is in the refined range.
proof fn lemma_refined_range(m: PhiModel, v: AbstractValue, i: CItv, rho: Valuation)
    requires
        phi_wf(m),
        satisfies(m, rho),
        in_range(i, rho(v)),
        run_interval(m, v, i) is Some,
    ensures
        refined_itv(m, v, i) matches Some(Some(b)) && in_range(b, rho(repr(m.eqs, v))),
        rho(repr(m.eqs, v)) == rho(v),
{
    let r = repr(m.eqs, v);
    lemma_repr_value(m, v, rho);
    lemma_lookup_has_key(m.itvs, r);
    let k = choose|k: int| rho(v) == #[trigger] whole(k) && i.has(k);
    if let Some(e) = lookup(m.itvs, r) {
        assert(in_range(e, rho(r)));
        let j = choose|j: int| rho(r) == #[trigger] whole(j) && e.has(j);
        assert(j == k);
        lemma_eq_abduced(e, i, k);
        assert(e.meet(i) matches Some(b) && b.has(k));
    }
    assert(refined_itv(m, v, i) matches Some(Some(b)) && b.has(k));
}

/// Binding a value to a range that it is in keeps all values in their ranges.
proof fn lemma_put_range(m: PhiModel, r: AbstractValue, better: CItv, rho: Valuation)
    requires
        phi_wf(m),
        satisfies(m, rho),
        in_range(better, rho(r)),
    ensures
        ({
            let itvs = put::<AbstractValue, CItv>(m.itvs, r, better);
            forall|a: int|
                0 <= a < itvs.len() ==> in_range((#[trigger] itvs[a]).1, rho(itvs[a].0))
        }),
{
    let itvs = put::<AbstractValue, CItv>(m.itvs, r, better);
    assert forall|a: int| 0 <= a < itvs.len() implies in_range(
        (#[trigger] itvs[a]).1,
        rho(itvs[a].0),
    ) by {
        lemma_put_members::<AbstractValue, CItv>(m.itvs, r, better, a);
        if itvs[a] != (r, better) {
            let b = choose|b: int| 0 <= b < m.itvs.len() && #[trigger] m.itvs[b]
                == itvs[a];
            assert(in_range(m.itvs[b].1, rho(m.itvs[b].0)));
        }
    }
}

/// Recording that a value is in a range keeps every valuation in which it is,
/// and reports a contradiction only when there is none.
pub proof fn law_run_interval(m: PhiModel, v: AbstractValue, i: CItv, rho: Valuation)
    requires
        phi_wf(m),
        run_interval(m, v, i) is Some,
    ensures
        phi_wf((run_interval(m, v, i)->0).0),
        satisfies(m, rho) && in_range(i, rho(v)) ==> (run_interval(m, v, i)->0).1 && satisfies(
            (run_interval(m, v, i)->0).0,
            rho,
        ),
{
    let r = repr(m.eqs, v);
    let given = satisfies(m, rho) && in_range(i, rho(v));
    if given {
        lemma_refined_range(m, v, i, rho);
    }
    if let Some(Some(better)) = refined_itv(m, v, i) {
        let m1 = PhiModel { itvs: put::<AbstractValue, CItv>(m.itvs, r, better), ..m };
        assert(phi_wf(m1));
        if given {
            lemma_put_range(m, r, better, rho);
            assert(models(m1, rho));
            assert(satisfies(m1, rho));
        }
        if let Some(c) = better.singleton() {
            lemma_lin_basics(q_int(c), r, rho);
            lemma_int_wf(c);
            if known_const(m1, r) != Some(q_int(c)) {
                law_run_linear_eq(m1, r, lin_const(q_int(c)), rho);
                if given {
                    let k = choose|k: int| rho(r) == #[trigger] whole(k) && better.has(k);
                    assert(k == c);
                    let x = c as real;
                    assert(x / (1i64 as real) == x) by (nonlinear_arith);
                    lemma_satisfies_frame(
                        m1,
                        (run_linear_eq(m1, r, lin_const(q_int(c)))->0).0,
                        rho,
                    );
                }
            }
        }
    }
}

/// Recording `v = c` keeps every valuation that satisfies it, and reports a
/// contradiction only when there is none.
pub proof fn law_run_const_eq(m: PhiModel, v: AbstractValue, c: i64, rho: Valuation)
    requires
        phi_wf(m),
        run_const_eq(m, v, c) is Some,
    ensures
        phi_wf((run_const_eq(m, v, c)->0).0),
        satisfies(m, rho) && rho(v) == c as real ==> faithful(
            (run_const_eq(m, v, c)->0).1,
            (run_const_eq(m, v, c)->0).0,
            rho,
        ) && satisfies((run_const_eq(m, v, c)->0).0, rho),
{
    let r = repr(m.eqs, v);
    let i = CItv::Between(Bound::Int(c), Bound::Int(c));
    let given = satisfies(m, rho) && rho(v) == c as real;
    if given {
        lemma_repr_value(m, v, rho);
        assert(rho(r) == whole(c as int) && i.has(c as int));
        assert(in_range(i, rho(r)));
    }
    law_run_interval(m, r, i, rho);
    let (m1, ok) = run_interval(m, r, i)->0;
    if ok {
        lemma_lin_basics(q_int(c), v, rho);
        lemma_int_wf(c);
        law_run_linear_eq(m1, v, lin_const(q_int(c)), rho);
        if given {
            let x = c as real;
            assert(x / (1i64 as real) == x) by (nonlinear_arith);
            lemma_satisfies_frame(m1, (run_linear_eq(m1, v, lin_const(q_int(c)))->0).0, rho);
        }
    }
}

proof fn lemma_operand_range(m: PhiModel, o: Operand, x: int, rho: Valuation)
    requires
        satisfies(m, rho),
        operand_value(o, rho) == whole(x),
    ensures
        itv_or_all(operand_itv(m, o)).has(x),
{
    if let Operand::AbstractValue(v) = o {
        lemma_repr_value(m, v, rho);
        lemma_lookup_has_key(m.itvs, repr(m.eqs, v));
        if let Some(i) = lookup(m.itvs, repr(m.eqs, v)) {
            assert(in_range(i, rho(repr(m.eqs, v))));
        }
    }
}

proof fn lemma_refine_operand(
    m: PhiModel,
    o: Operand,
    refined: Option<CItv>,
    x: int,
    rho: Valuation,
)
    requires
        phi_wf(m),
        refine_operand(m, o, refined) is Some,
    ensures
        phi_wf((refine_operand(m, o, refined)->0).0),
        satisfies(m, rho) && operand_value(o, rho) == whole(x) && (refined matches Some(i)
            ==> i.has(x)) ==> (refine_operand(m, o, refined)->0).1 && satisfies(
            (refine_operand(m, o, refined)->0).0,
            rho,
        ),
{
    if let (Some(i), Operand::AbstractValue(v)) = (refined, o) {
        law_run_interval(m, v, i, rho);
        if operand_value(o, rho) == whole(x) && i.has(x) {
            assert(in_range(i, rho(v)));
        }
    }
}

/// Checking a comparison against ranges keeps every valuation in which the
/// comparison holds between integers.
pub proof fn law_check_ranges(
    m: PhiModel,
    bop: Binop,
    a: Operand,
    b: Operand,
    x: int,
    y: int,
    rho: Valuation,
)
    requires
        phi_wf(m),
        check_ranges(m, bop, a, b) is Some,
    ensures
        phi_wf((check_ranges(m, bop, a, b)->0).0),
        satisfies(m, rho) && operand_value(a, rho) == whole(x) && operand_value(b, rho) == whole(y)
            && bop.holds(x, y) == Some(true) ==> (check_ranges(m, bop, a, b)->0).1 && satisfies(
            (check_ranges(m, bop, a, b)->0).0,
            rho,
        ),
{
    let given = satisfies(m, rho) && operand_value(a, rho) == whole(x) && operand_value(b, rho)
        == whole(y) && bop.holds(x, y) == Some(true);
    let (i, j) = (itv_or_all(operand_itv(m, a)), itv_or_all(operand_itv(m, b)));
    if !(operand_itv(m, a) is None && operand_itv(m, b) is None) {
        if given {
            lemma_operand_range(m, a, x, rho);
            lemma_operand_range(m, b, y, rho);
            lemma_binop_abduced(false, bop, i, j, x, y);
        }
        if let AbductionResult::Satisfiable(p, q) = CItv::binop_abduced(false, bop, i, j) {
            lemma_refine_operand(m, a, p, x, rho);
            let (m1, ok) = refine_operand(m, a, p)->0;
            if ok {
                lemma_refine_operand(m1, b, q, y, rho);
            }
        }
    }
}

proof fn lemma_operand_term(m: PhiModel, o: Operand, rho: Valuation)
    requires
        models(m, rho),
    ensures
        term_value(operand_term(m, o), rho) == operand_value(o, rho),
{
    if let Operand::AbstractValue(v) = o {
        lemma_repr_value(m, v, rho);
    }
}

proof fn lemma_atom_frame(m: PhiModel, a: Atom, rho: Valuation)
    requires
        satisfies(m, rho),
        run_atom(m, a) is Some,
        models((run_atom(m, a)->0).0, rho),
    ensures
        satisfies((run_atom(m, a)->0).0, rho),
{
    lemma_satisfies_frame(m, (run_atom(m, a)->0).0, rho);
}

/// Recording a disequality keeps every valuation that satisfies it.
pub proof fn law_not_equal(m: PhiModel, a: Operand, b: Operand, rho: Valuation)
    requires
        phi_wf(m),
        not_equal(m, a, b) is Some,
    ensures
        phi_wf((not_equal(m, a, b)->0).0),
        satisfies(m, rho) && operand_value(a, rho) != operand_value(b, rho) ==> faithful(
            (not_equal(m, a, b)->0).1,
            (not_equal(m, a, b)->0).0,
            rho,
        ) && satisfies((not_equal(m, a, b)->0).0, rho),
{
    let atom = Atom::NotEqual(operand_term(m, a), operand_term(m, b));
    law_run_atom(m, atom, rho);
    if satisfies(m, rho) && operand_value(a, rho) != operand_value(b, rho) {
        lemma_operand_term(m, a, rho);
        lemma_operand_term(m, b, rho);
        lemma_atom_frame(m, atom, rho);
    }
}

/// Recording an order keeps every valuation in which it holds between
/// integers.
pub proof fn law_less(
    m: PhiModel,
    strict: bool,
    a: Operand,
    b: Operand,
    x: int,
    y: int,
    rho: Valuation,
)
    requires
        phi_wf(m),
        less(m, strict, a, b) is Some,
    ensures
        phi_wf((less(m, strict, a, b)->0).0),
        satisfies(m, rho) && operand_value(a, rho) == whole(x) && operand_value(b, rho) == whole(y)
            && (x < y || (!strict && x == y)) ==> faithful(
            (less(m, strict, a, b)->0).1,
            (less(m, strict, a, b)->0).0,
            rho,
        ) && satisfies((less(m, strict, a, b)->0).0, rho),
{
    let bop = if strict {
        Binop::Lt
    } else {
        Binop::Le
    };
    let given = satisfies(m, rho) && operand_value(a, rho) == whole(x) && operand_value(b, rho)
        == whole(y) && (x < y || (!strict && x == y));
    law_check_ranges(m, bop, a, b, x, y, rho);
    let (m1, ok) = check_ranges(m, bop, a, b)->0;
    if ok {
        let atom = order_atom(m1, strict, a, b);
        law_run_atom(m1, atom, rho);
        if given {
            lemma_operand_term(m1, a, rho);
            lemma_operand_term(m1, b, rho);
            lemma_atom_frame(m1, atom, rho);
        }
    }
}

/// Recording that operands are equal keeps every valuation in which they are.
pub proof fn law_equal_operands(m: PhiModel, a: Operand, b: Operand, rho: Valuation)
    requires
        phi_wf(m),
        equal_operands(m, a, b) is Some,
    ensures
        phi_wf((equal_operands(m, a, b)->0).0),
        satisfies(m, rho) && operand_value(a, rho) == operand_value(b, rho) ==> faithful(
            (equal_operands(m, a, b)->0).1,
            (equal_operands(m, a, b)->0).0,
            rho,
        ) && satisfies((equal_operands(m, a, b)->0).0, rho),
{
    let given = satisfies(m, rho) && operand_value(a, rho) == operand_value(b, rho);
    match (a, b) {
        (Operand::AbstractValue(v), Operand::AbstractValue(w)) => {
            law_run_var_equal(m, v, w, rho);
            if given {
                lemma_satisfies_frame(m, (run_var_equal(m, v, w)->0).0, rho);
            }
        },
        (Operand::AbstractValue(v), Operand::ConstOperand(c)) => law_run_const_eq(m, v, c, rho),
        (Operand::ConstOperand(c), Operand::AbstractValue(v)) => law_run_const_eq(m, v, c, rho),
        _ => {},
    }
}

/// Pruning by an equality between integers, or by its negation, keeps every
/// valuation that takes the branch.
pub proof fn law_prune_equal(
    f: FormulaModel,
    v1: AbstractValue,
    v2: AbstractValue,
    negated: bool,
    depth: usize,
    rho: Valuation,
)
    requires
        phi_wf(f.phi),
        is_whole(rho(v1)),
        is_whole(rho(v2)),
        prune_equal(f, v1, v2, negated, depth) is Some,
    ensures
        phi_wf((prune_equal(f, v1, v2, negated, depth)->0).0.phi),
        satisfies(f.phi, rho) && (rho(v1) == rho(v2)) != negated ==> faithful(
            (prune_equal(f, v1, v2, negated, depth)->0).1,
            (prune_equal(f, v1, v2, negated, depth)->0).0.phi,
            rho,
        ) && satisfies((prune_equal(f, v1, v2, negated, depth)->0).0.phi, rho),
{
    let (a, b) = (Operand::AbstractValue(v1), Operand::AbstractValue(v2));
    let bop = if negated {
        Binop::Ne
    } else {
        Binop::Eq
    };
    let x = choose|k: int| rho(v1) == #[trigger] whole(k);
    let y = choose|k: int| rho(v2) == #[trigger] whole(k);
    let given = satisfies(f.phi, rho) && (rho(v1) == rho(v2)) != negated;
    law_check_ranges(f.phi, bop, a, b, x, y, rho);
    let (m, ok) = check_ranges(f.phi, bop, a, b)->0;
    if ok {
        if negated {
            law_not_equal(m, a, b, rho);
        } else {
            law_run_var_equal(m, v1, v2, rho);
            if given {
                lemma_satisfies_frame(m, (run_var_equal(m, v1, v2)->0).0, rho);
            }
        }
    }
}

/// Pruning by an order between integers keeps every valuation that takes the
/// branch.
pub proof fn law_prune_order(
    f: FormulaModel,
    strict: bool,
    a: Operand,
    b: Operand,
    x: int,
    y: int,
    rho: Valuation,
)
    requires
        phi_wf(f.phi),
        prune_order(f, strict, a, b) is Some,
    ensures
        phi_wf((prune_order(f, strict, a, b)->0).0.phi),
        satisfies(f.phi, rho) && operand_value(a, rho) == whole(x) && operand_value(b, rho)
            == whole(y) && (x < y || (!strict && x == y)) ==> faithful(
            (prune_order(f, strict, a, b)->0).1,
            (prune_order(f, strict, a, b)->0).0.phi,
            rho,
        ) && satisfies((prune_order(f, strict, a, b)->0).0.phi, rho),
{
    law_less(f.phi, strict, a, b, x, y, rho);
}

/// Forgetting facts keeps every valuation.
pub proof fn law_filtered(
    m: PhiModel,
    set: Seq<AbstractValue>,
    inside: bool,
    keep_ints: bool,
    rho: Valuation,
)
    requires
        satisfies(m, rho),
    ensures
        satisfies(filtered(m, set, inside, keep_ints), rho),
{
    let n = filtered(m, set, inside, keep_ints);
    assert forall|i: int| 0 <= i < n.lin.len() implies rho((#[trigger] n.lin[i]).0) == lin_value(
        n.lin[i].1,
        rho,
    ) by {
        let p = |e: (AbstractValue, Lin)|
            super::solver::passes(m, set, inside, e.0) && super::solver::all_pass(
                m,
                set,
                inside,
                super::solver::lin_vars(e.1),
            );
        lemma_filter_members(m.lin, p, i);
        let j = choose|j: int| 0 <= j < m.lin.len() && #[trigger] m.lin[j] == m.lin.filter(p)[i];
        assert(rho(m.lin[j].0) == lin_value(m.lin[j].1, rho));
    }
    assert forall|i: int| 0 <= i < n.atoms.len() implies atom_holds(#[trigger] n.atoms[i], rho) by {
        let p = |a: Atom| super::solver::atom_passes(m, set, inside, a);
        lemma_filter_members(m.atoms, p, i);
        let j = choose|j: int| 0 <= j < m.atoms.len() && #[trigger] m.atoms[j]
            == m.atoms.filter(p)[i];
        assert(atom_holds(m.atoms[j], rho));
    }
    assert forall|i: int| 0 <= i < n.ints.len() implies is_whole(rho(#[trigger] n.ints[i])) by {
        if !keep_ints {
            let p = |v: AbstractValue| super::solver::passes(m, set, inside, v);
            lemma_filter_members(m.ints, p, i);
            let j = choose|j: int| 0 <= j < m.ints.len() && #[trigger] m.ints[j]
                == m.ints.filter(p)[i];
            assert(is_whole(rho(m.ints[j])));
        }
    }
    assert forall|i: int| 0 <= i < n.itvs.len() implies in_range(
        (#[trigger] n.itvs[i]).1,
        rho(n.itvs[i].0),
    ) by {
        let p = |e: (AbstractValue, CItv)| super::solver::passes(m, set, inside, e.0);
        lemma_filter_members(m.itvs, p, i);
        let j = choose|j: int| 0 <= j < m.itvs.len() && #[trigger] m.itvs[j] == m.itvs.filter(p)[i];
        assert(in_range(m.itvs[j].1, rho(m.itvs[j].0)));
    }
    assert forall|i: int| 0 <= i < n.terms.len() implies rho((#[trigger] n.terms[i]).0)
        == comparison_value(
        n.terms[i].1.op,
        operand_value(n.terms[i].1.lhs, rho),
        operand_value(n.terms[i].1.rhs, rho),
    ) by {
        let p = |e: (AbstractValue, super::phi::TermEq)|
            super::solver::passes(m, set, inside, e.0) && super::solver::operand_passes(
                m,
                set,
                inside,
                e.1.lhs,
            ) && super::solver::operand_passes(m, set, inside, e.1.rhs);
        lemma_filter_members(m.terms, p, i);
        let j = choose|j: int| 0 <= j < m.terms.len() && #[trigger] m.terms[j]
            == m.terms.filter(p)[i];
        assert(rho(m.terms[j].0) == comparison_value(
            m.terms[j].1.op,
            operand_value(m.terms[j].1.lhs, rho),
            operand_value(m.terms[j].1.rhs, rho),
        ));
    }
}

} // verus!
