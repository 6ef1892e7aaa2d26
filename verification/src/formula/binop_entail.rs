//! What is known of a value once it was recorded as the result of an operation.

use super::Operand;
use super::atom::{atom_holds, Atom};
use super::binop_laws::{law_enforce, lemma_known_const, lemma_operand_lin, op_value};
use super::citv::CItv;
use super::entail_laws::{
    entails, law_atom_entails, law_const_eq_entails, law_interval_entails, law_linear_eq_entails,
    law_not_equal_entails, law_ranges_entail, law_var_equal_entails, lemma_kept, lemma_models_parts,
};
use super::fold_laws::law_folded;
use super::formula_model::{
    binop_integer_result, check_ranges, compare_result, comparison_of, enforce, enforce_order,
    equal_binop, equal_binop_inner, fold_bits, fold_ints, is_comparison, operand_int, operand_ints,
    operand_itv, operand_lin, operand_rational, prune_const, result_range, simple_operand,
    with_value, FormulaModel,
};
use super::lin_arith::{law_add, law_sub, lemma_lin_basics, lin_add, lin_const, lin_sub, Valuation};
use super::meaning::{is_whole, law_run_linear_eq, models, phi_wf, solves, whole};
use super::path_laws::{comparison_value, law_run_interval, operand_value, satisfies};
use super::phi::TermEq;
use super::solver::{known_const, marked_int, term_key, PhiModel};
use super::term::Term;
use super::var_uf::repr;
use crate::abstract_value::AbstractValue;
use crate::binop::Binop;
use crate::ordered::{
    lemma_lookup_has_key, lemma_lookup_put, lemma_set_put_contains, lookup, sorted,
};
use crate::rational::{lemma_q_div, q_div};
use crate::sat_unsat::SatUnsat;
use vstd::prelude::*;

verus! {

/// The value has the sum or the difference of its operands.
pub open spec fn adds_up(op: Binop, v: AbstractValue, x: Operand, y: Operand, rho: Valuation) -> bool {
    &&& op is PlusA || op is PlusPI ==> rho(v) == operand_value(x, rho) + operand_value(y, rho)
    &&& op is MinusA || op is MinusPI || op is MinusPP ==> rho(v) == operand_value(x, rho)
        - operand_value(y, rho)
}

/// The value has the result of the operation on known integers.
pub open spec fn folds(
    m: PhiModel,
    op: Binop,
    v: AbstractValue,
    x: Operand,
    y: Operand,
    rho: Valuation,
) -> bool {
    operand_ints(m, x, y) matches Some((a, b)) ==> op_value(op, a as int, b as int) matches Some(r)
        ==> rho(v) == r
}

/// The value is one where the comparison holds, zero where it does not.
pub open spec fn compares(op: Binop, v: AbstractValue, x: Operand, y: Operand, rho: Valuation) -> bool {
    is_comparison(op) ==> rho(v) == comparison_value(
        op,
        operand_value(x, rho),
        operand_value(y, rho),
    )
}

proof fn lemma_known_operand(m: PhiModel, o: Operand, rho: Valuation)
    requires
        phi_wf(m),
        models(m, rho),
    ensures
        operand_int(m, o) matches Some(c) ==> operand_value(o, rho) == whole(c as int),
{
    if let Operand::AbstractValue(v) = o {
        lemma_known_const(m, v, rho);
        if let Some(q) = known_const(m, v) {
            if q.denom == 1 {
                let r = q.numer as real;
                assert(r / (1i64 as real) == r) by (nonlinear_arith);
            }
        }
    }
}

proof fn lemma_sum_entails(
    m: PhiModel,
    v: AbstractValue,
    op: Binop,
    x: Operand,
    y: Operand,
    rho: Valuation,
)
    requires
        phi_wf(m),
        op is PlusA || op is PlusPI || op is MinusA || op is MinusPI || op is MinusPP,
        equal_binop_inner(m, v, op, x, y) matches Some((_, SatUnsat::Sat(_))),
    ensures
        entails((equal_binop_inner(m, v, op, x, y)->0).0, m, rho),
        models((equal_binop_inner(m, v, op, x, y)->0).0, rho) ==> adds_up(op, v, x, y, rho),
{
    let n = (equal_binop_inner(m, v, op, x, y)->0).0;
    let (lx, ly) = (operand_lin(m, x), operand_lin(m, y));
    lemma_operand_lin(m, x, rho);
    lemma_operand_lin(m, y, rho);
    if let (Some(i), Some(j)) = (operand_itv(m, x), operand_itv(m, y)) {
        if let Some(r) = CItv::binop_result(op, i, j) {
            law_run_interval(m, v, r, rho);
            law_interval_entails(m, v, r, rho);
        }
    }
    let m1 = (result_range(m, v, op, x, y)->0).0;
    let l = if op is PlusA || op is PlusPI {
        law_add(lx, ly, rho);
        lin_add(lx, ly)->0
    } else {
        law_sub(lx, ly, rho);
        lin_sub(lx, ly)->0
    };
    law_run_linear_eq(m1, v, l, rho);
    law_linear_eq_entails(m1, v, l, rho);
    lemma_kept(m1, n, rho);
    if models(n, rho) {
        assert(solves(n, rho));
    }
}

proof fn lemma_known_rational(m: PhiModel, o: Operand, rho: Valuation)
    requires
        phi_wf(m),
        models(m, rho),
    ensures
        operand_rational(m, o) matches Some(q) ==> operand_value(o, rho) == q.value(),
{
    match o {
        Operand::AbstractValue(v) => lemma_known_const(m, v, rho),
        Operand::ConstOperand(c) => {
            let r = c as real;
            assert(r / (1i64 as real) == r) by (nonlinear_arith);
        },
    }
}

/// The quotient of two known rational numbers is exact.
pub proof fn law_division_entails(
    m: PhiModel,
    v: AbstractValue,
    x: Operand,
    y: Operand,
    rho: Valuation,
)
    requires
        phi_wf(m),
        operand_rational(m, x) is Some,
        operand_rational(m, y) matches Some(q) && q.numer != 0,
        equal_binop_inner(m, v, Binop::DivF, x, y) matches Some((_, SatUnsat::Sat(_))),
    ensures
        entails((equal_binop_inner(m, v, Binop::DivF, x, y)->0).0, m, rho),
        models((equal_binop_inner(m, v, Binop::DivF, x, y)->0).0, rho) ==> operand_value(y, rho)
            != 0real && rho(v) == operand_value(x, rho) / operand_value(y, rho),
{
    let n = (equal_binop_inner(m, v, Binop::DivF, x, y)->0).0;
    let (p, q) = (operand_rational(m, x)->0, operand_rational(m, y)->0);
    lemma_q_div(p, q);
    let d = q_div(p, q)->0;
    lemma_lin_basics(d, v, rho);
    law_run_linear_eq(m, v, lin_const(d), rho);
    law_linear_eq_entails(m, v, lin_const(d), rho);
    lemma_kept(m, n, rho);
    if models(n, rho) {
        assert(solves(n, rho));
        lemma_known_rational(m, x, rho);
        lemma_known_rational(m, y, rho);
    }
}

/// Once a value was recorded as the result of an operation without a
/// contradiction, whatever satisfies the state gives it that result: the sum or
/// difference of the operands, the result on known integers, or the truth of the
/// comparison. What held before still holds.
pub proof fn law_binop_inner_entails(
    m: PhiModel,
    v: AbstractValue,
    op: Binop,
    x: Operand,
    y: Operand,
    rho: Valuation,
)
    requires
        phi_wf(m),
        sorted::<AbstractValue, TermEq>(m.terms),
        equal_binop_inner(m, v, op, x, y) matches Some((_, SatUnsat::Sat(_))),
    ensures
        entails((equal_binop_inner(m, v, op, x, y)->0).0, m, rho),
        models((equal_binop_inner(m, v, op, x, y)->0).0, rho) ==> adds_up(op, v, x, y, rho)
            && folds(m, op, v, x, y, rho),
        satisfies((equal_binop_inner(m, v, op, x, y)->0).0, rho) ==> compares(op, v, x, y, rho),
{
    match op {
        Binop::PlusA(_) | Binop::PlusPI | Binop::MinusA(_) | Binop::MinusPI | Binop::MinusPP => {
            lemma_sum_entails(m, v, op, x, y, rho);
            lemma_known_operands(m, (equal_binop_inner(m, v, op, x, y)->0).0, x, y, rho);
        },
        Binop::Eq | Binop::Ne | Binop::Lt | Binop::Gt | Binop::Le | Binop::Ge => {
            lemma_comparison_entails(m, v, op, x, y, rho);
        },
        Binop::DivF => {
            if let (Some(p), Some(q)) = (operand_rational(m, x), operand_rational(m, y)) {
                if q.numer != 0 {
                    law_division_entails(m, v, x, y, rho);
                }
            }
            lemma_known_operands(m, (equal_binop_inner(m, v, op, x, y)->0).0, x, y, rho);
        },
        _ => lemma_fold_entails(m, v, op, x, y, rho),
    }
}

proof fn lemma_known_operands(m: PhiModel, n: PhiModel, x: Operand, y: Operand, rho: Valuation)
    requires
        phi_wf(m),
        entails(n, m, rho),
    ensures
        models(n, rho) ==> (operand_ints(m, x, y) matches Some((a, b)) ==> operand_value(x, rho)
            == whole(a as int) && operand_value(y, rho) == whole(b as int)),
{
    if models(n, rho) {
        lemma_known_operand(m, x, rho);
        lemma_known_operand(m, y, rho);
    }
}

proof fn lemma_comparison_entails(
    m: PhiModel,
    v: AbstractValue,
    op: Binop,
    x: Operand,
    y: Operand,
    rho: Valuation,
)
    requires
        phi_wf(m),
        sorted::<AbstractValue, TermEq>(m.terms),
        is_comparison(op),
        equal_binop_inner(m, v, op, x, y) matches Some((_, SatUnsat::Sat(_))),
    ensures
        entails((equal_binop_inner(m, v, op, x, y)->0).0, m, rho),
        models((equal_binop_inner(m, v, op, x, y)->0).0, rho) ==> folds(m, op, v, x, y, rho),
        satisfies((equal_binop_inner(m, v, op, x, y)->0).0, rho) ==> compares(op, v, x, y, rho),
{
    let n = (equal_binop_inner(m, v, op, x, y)->0).0;
    lemma_models_parts(n, rho);
    match operand_ints(m, x, y) {
        Some((c, d)) => {
            law_folded(op, c, d);
            let e = compare_result(op, c as int, d as int);
            law_const_eq_entails(m, v, e, rho);
            lemma_known_operands(m, n, x, y, rho);
        },
        None => {
            let t = TermEq { op, lhs: x, rhs: y };
            lemma_models_parts(m, rho);
            lemma_lookup_put::<AbstractValue, TermEq>(m.terms, v, t, v);
            lemma_lookup_has_key(n.terms, v);
            if satisfies(n, rho) {
                let i = choose|i: int| 0 <= i < n.terms.len() && #[trigger] n.terms[i] == (v, t);
                assert(rho(n.terms[i].0) == comparison_value(
                    n.terms[i].1.op,
                    operand_value(n.terms[i].1.lhs, rho),
                    operand_value(n.terms[i].1.rhs, rho),
                ));
            }
        },
    }
}

proof fn lemma_fold_entails(
    m: PhiModel,
    v: AbstractValue,
    op: Binop,
    x: Operand,
    y: Operand,
    rho: Valuation,
)
    requires
        phi_wf(m),
        !is_comparison(op),
        !(op is DivF),
        !(op is PlusA || op is PlusPI || op is MinusA || op is MinusPI || op is MinusPP),
        equal_binop_inner(m, v, op, x, y) matches Some((_, SatUnsat::Sat(_))),
    ensures
        entails((equal_binop_inner(m, v, op, x, y)->0).0, m, rho),
        models((equal_binop_inner(m, v, op, x, y)->0).0, rho) ==> folds(m, op, v, x, y, rho),
{
    let n = (equal_binop_inner(m, v, op, x, y)->0).0;
    lemma_models_parts(n, rho);
    if let Some((c, d)) = operand_ints(m, x, y) {
        law_folded(op, c, d);
        if op is BAnd || op is BOr || op is BXor {
            law_const_eq_entails(m, v, fold_bits(op, c, d), rho);
        } else if let Some(Some(e)) = fold_ints(op, c, d) {
            if op is Mult || op is DivI || op is Mod || op is Shiftlt || op is Shiftrt {
                law_const_eq_entails(m, v, e, rho);
            }
        }
    }
}

/// The same for the operation as a whole: the value of an operation that was
/// evaluated before equals the remembered one, any other has its result.
pub proof fn law_binop_entails(
    m: PhiModel,
    v: AbstractValue,
    op: Binop,
    x: Operand,
    y: Operand,
    rho: Valuation,
)
    requires
        phi_wf(m),
        sorted::<AbstractValue, TermEq>(m.terms),
        equal_binop(m, v, op, x, y) matches Some((_, SatUnsat::Sat(_))),
    ensures
        entails((equal_binop(m, v, op, x, y)->0).0, m, rho),
        match lookup(m.values, term_key(m, op, x, y)) {
            Some(w) => w != v && models((equal_binop(m, v, op, x, y)->0).0, rho) ==> rho(v) == rho(
                w,
            ),
            None => {
                &&& models((equal_binop(m, v, op, x, y)->0).0, rho) ==> adds_up(op, v, x, y, rho)
                    && folds(m, op, v, x, y, rho)
                &&& satisfies((equal_binop(m, v, op, x, y)->0).0, rho) ==> compares(
                    op,
                    v,
                    x,
                    y,
                    rho,
                )
            },
        },
{
    let n = (equal_binop(m, v, op, x, y)->0).0;
    let hit = lookup(m.values, term_key(m, op, x, y));
    if hit is Some && hit->0 != v {
        law_var_equal_entails(m, v, hit->0, rho);
        if models(n, rho) {
            assert(solves(n, rho));
        }
    } else {
        let m0 = binop_integer_result(m, v, op);
        law_binop_inner_entails(m0, v, op, x, y, rho);
        let m1 = (equal_binop_inner(m0, v, op, x, y)->0).0;
        assert(n == with_value(m1, v, op, x, y));
        lemma_models_parts(n, rho);
        lemma_models_parts(m1, rho);
        assert(models(n, rho) ==> models(m1, rho));
        if is_comparison(op) {
            lemma_marked_back(m, v, rho);
        }
        assert(satisfies(n, rho) ==> satisfies(m1, rho)) by {
            assert(n.itvs == m1.itvs && n.terms == m1.terms);
        }
        assert(operand_ints(m0, x, y) == operand_ints(m, x, y));
        assert(folds(m0, op, v, x, y, rho) == folds(m, op, v, x, y, rho));
    }
}

proof fn lemma_marked_back(m: PhiModel, v: AbstractValue, rho: Valuation)
    ensures
        entails(marked_int(m, v), m, rho),
{
    let n = marked_int(m, v);
    lemma_models_parts(n, rho);
    lemma_models_parts(m, rho);
    if models(n, rho) {
        assert forall|i: int| 0 <= i < m.ints.len() implies is_whole(rho(#[trigger] m.ints[i])) by {
            lemma_set_put_contains::<AbstractValue>(m.ints, repr(m.eqs, v), m.ints[i]);
            assert(m.ints.contains(m.ints[i]));
            let j = choose|j: int| 0 <= j < n.ints.len() && n.ints[j] == m.ints[i];
            assert(is_whole(rho(n.ints[j])));
        }
    }
}

/// Where a condition was enforced without a contradiction, whatever satisfies the
/// state satisfies the condition and what held before.
pub proof fn law_enforce_entails(f: FormulaModel, a: Atom, rho: Valuation)
    requires
        phi_wf(f.phi),
        enforce(f, a) matches Some((_, SatUnsat::Sat(_))),
    ensures
        entails((enforce(f, a)->0).0.phi, f.phi, rho),
        models((enforce(f, a)->0).0.phi, rho) ==> atom_holds(a, rho),
{
    let m = f.phi;
    let n = (enforce(f, a)->0).0.phi;
    if models(n, rho) {
        assert(solves(n, rho));
    }
    match a {
        Atom::Equal(Term::Var(v), Term::Var(w)) => law_var_equal_entails(m, v, w, rho),
        Atom::Equal(Term::Var(v), Term::Const(c)) => law_const_eq_entails(m, v, c, rho),
        Atom::Equal(Term::Const(c), Term::Var(v)) => law_const_eq_entails(m, v, c, rho),
        Atom::LessEqual(x, y) => lemma_order_entails(f, a, Binop::Le, rho),
        Atom::LessThan(x, y) => lemma_order_entails(f, a, Binop::Lt, rho),
        _ => law_atom_entails(m, a, rho),
    }
}

proof fn lemma_order_entails(f: FormulaModel, a: Atom, bop: Binop, rho: Valuation)
    requires
        phi_wf(f.phi),
        enforce_order(f, a, bop, a.lhs(), a.rhs()) matches Some((_, SatUnsat::Sat(_))),
    ensures
        entails((enforce_order(f, a, bop, a.lhs(), a.rhs())->0).0.phi, f.phi, rho),
        models((enforce_order(f, a, bop, a.lhs(), a.rhs())->0).0.phi, rho) ==> atom_holds(a, rho),
{
    match (simple_operand(a.lhs()), simple_operand(a.rhs())) {
        (Some(o), Some(p)) => {
            law_ranges_entail(f.phi, bop, o, p, rho);
            law_atom_entails((check_ranges(f.phi, bop, o, p)->0).0, a, rho);
        },
        _ => law_atom_entails(f.phi, a, rho),
    }
}

/// A path pruned by `v = c`, or by its negation, without a contradiction satisfies
/// it, and what held before.
pub proof fn law_prune_const_entails(
    f: FormulaModel,
    v: AbstractValue,
    c: i64,
    negated: bool,
    rho: Valuation,
)
    requires
        phi_wf(f.phi),
        prune_const(f, v, c, negated) matches Some((_, SatUnsat::Sat(_))),
    ensures
        entails((prune_const(f, v, c, negated)->0).0.phi, f.phi, rho),
        models((prune_const(f, v, c, negated)->0).0.phi, rho) ==> (rho(v) == c as real) != negated,
        models((prune_const(f, v, c, negated)->0).0.phi, rho) && comparison_of(
            f.phi,
            v,
            c,
            negated,
        ) is Some ==> atom_holds(comparison_of(f.phi, v, c, negated)->0, rho),
{
    let m = f.phi;
    let g = match comparison_of(m, v, c, negated) {
        Some(a) => {
            law_enforce(f, a, rho);
            law_enforce_entails(f, a, rho);
            (enforce(f, a)->0).0
        },
        None => f,
    };
    let n = (prune_const(f, v, c, negated)->0).0.phi;
    if models(n, rho) {
        assert(solves(n, rho));
    }
    if negated {
        law_not_equal_entails(g.phi, Operand::AbstractValue(v), Operand::ConstOperand(c), rho);
    } else {
        law_const_eq_entails(g.phi, v, c, rho);
    }
}

} // verus!
