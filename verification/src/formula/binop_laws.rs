//! Recording the result of an operation, and pruning on it, loses no solution.

use super::Operand;
use super::atom::{atom_holds, Atom};
use super::citv::{in_i64, lemma_binop_result, CItv};
use super::fold_laws::{integer_result, law_folded};
use super::formula_model::{
    binop_integer_result, compare_result, comparison_of, enforce, enforce_order, equal_binop,
    equal_binop_inner, fold_bits, fold_ints, is_comparison, not_equal, operand_int, operand_ints,
    operand_itv, operand_lin, operand_rational, operand_term, prune_const, result_range,
    simple_operand, with_value, FormulaModel,
};
use super::lin_arith::{
    law_add, law_sub, lemma_lin_basics, lin_add, lin_const, lin_sub, lin_value, lin_wf, Valuation,
};
use super::meaning::{
    faithful, is_whole, law_run_linear_eq, law_run_var_equal, lemma_as_const, lemma_eq_value,
    lemma_eq_wf, lemma_repr_value, models, phi_wf, whole,
};
use super::path_laws::{
    comparison_value, in_range, law_check_ranges, law_not_equal, law_run_atom, law_run_const_eq,
    law_run_interval, operand_value, satisfies,
};
use super::phi::{TermEq, TermKey};
use super::solver::{
    canonical_operand, known_const, marked_int, run_atom, run_const_eq, run_interval, run_linear_eq,
    run_var_equal, term_key, PhiModel,
};
use super::term::{term_value, Term};
use super::var_uf::repr;
use crate::abstract_value::AbstractValue;
use crate::binop::Binop;
use crate::ordered::{lemma_lookup_has_key, lemma_put_members, lemma_set_put_contains, lookup, put};
use crate::rational::{abs, lemma_int_wf, lemma_q_div, lemma_q_integer, q_div, q_int};
use vstd::prelude::*;

verus! {

/// The result of an operation on integers, where it has one.
pub open spec fn op_value(op: Binop, x: int, y: int) -> Option<real> {
    match op {
        Binop::PlusA(_) | Binop::PlusPI => Some(whole(x + y)),
        Binop::MinusA(_) | Binop::MinusPI | Binop::MinusPP => Some(whole(x - y)),
        Binop::DivF => if y == 0 {
            None
        } else {
            Some((x as real) / (y as real))
        },
        Binop::Eq | Binop::Ne | Binop::Lt | Binop::Gt | Binop::Le | Binop::Ge => Some(
            whole(integer_result(op, x, y)->0),
        ),
        _ => if in_i64(x) && in_i64(y) {
            match integer_result(op, x, y) {
                Some(c) => Some(whole(c)),
                None => None,
            }
        } else {
            None
        },
    }
}

/// A remembered value is the result of its operation.
pub open spec fn value_holds(k: TermKey, v: AbstractValue, rho: Valuation) -> bool {
    forall|x: int, y: int|
        operand_value(k.lhs, rho) == #[trigger] whole(x) && operand_value(k.rhs, rho)
            == #[trigger] whole(y) && op_value(k.op, x, y) is Some ==> Some(rho(v)) == op_value(
            k.op,
            x,
            y,
        )
}

pub open spec fn values_hold(m: PhiModel, rho: Valuation) -> bool {
    forall|i: int| 0 <= i < m.values.len() ==> value_holds(
        (#[trigger] m.values[i]).0,
        m.values[i].1,
        rho,
    )
}

pub proof fn lemma_known_const(m: PhiModel, v: AbstractValue, rho: Valuation)
    requires
        phi_wf(m),
        models(m, rho),
    ensures
        known_const(m, v) matches Some(q) ==> q.wf() && rho(v) == q.value(),
{
    let r = repr(m.eqs, v);
    lemma_repr_value(m, v, rho);
    lemma_eq_value(m, r, rho);
    lemma_eq_wf(m, r);
    if let Some(l) = lookup(m.lin, r) {
        lemma_as_const(l, rho);
    }
}

proof fn lemma_int_value(n: i64)
    ensures
        q_int(n).value() == n as real,
{
    let x = n as real;
    assert(x / (1i64 as real) == x) by (nonlinear_arith);
}

pub proof fn lemma_operand_int(m: PhiModel, o: Operand, x: int, rho: Valuation)
    requires
        phi_wf(m),
        models(m, rho),
        operand_value(o, rho) == whole(x),
    ensures
        operand_int(m, o) matches Some(c) ==> c == x,
        operand_rational(m, o) matches Some(q) ==> q.wf() && q.value() == whole(x),
{
    match o {
        Operand::ConstOperand(c) => {
            lemma_int_wf(c);
            lemma_int_value(c);
        },
        Operand::AbstractValue(v) => {
            lemma_known_const(m, v, rho);
            if let Some(q) = known_const(m, v) {
                lemma_q_integer(q, x);
                assert(q == q_int(q.numer));
                lemma_int_value(q.numer);
                assert(q.numer == x);
                let n = abs(q.numer as int) as int;
                assert(n / 1 == n);
            }
        },
    }
}

proof fn lemma_canonical_operand(m: PhiModel, o: Operand, rho: Valuation)
    requires
        phi_wf(m),
        models(m, rho),
    ensures
        operand_value(canonical_operand(m, o), rho) == operand_value(o, rho),
{
    if let Operand::AbstractValue(v) = o {
        lemma_known_const(m, v, rho);
        lemma_repr_value(m, v, rho);
        if let Some(q) = known_const(m, v) {
            if q.denom == 1 {
                assert(q == q_int(q.numer));
                lemma_int_value(q.numer);
            }
        }
    }
}

pub proof fn lemma_operand_lin(m: PhiModel, o: Operand, rho: Valuation)
    ensures
        lin_wf(operand_lin(m, o)),
        models(m, rho) ==> lin_value(operand_lin(m, o), rho) == operand_value(o, rho),
{
    match o {
        Operand::ConstOperand(c) => {
            lemma_int_wf(c);
            lemma_int_value(c);
            lemma_lin_basics(q_int(c), AbstractValue(0), rho);
        },
        Operand::AbstractValue(v) => {
            lemma_lin_basics(q_int(0), repr(m.eqs, v), rho);
            if models(m, rho) {
                lemma_repr_value(m, v, rho);
            }
        },
    }
}

proof fn lemma_operand_has(m: PhiModel, o: Operand, x: int, rho: Valuation)
    requires
        satisfies(m, rho),
        operand_value(o, rho) == whole(x),
    ensures
        operand_itv(m, o) matches Some(i) ==> i.has(x),
{
    if let Operand::AbstractValue(v) = o {
        lemma_repr_value(m, v, rho);
        lemma_lookup_has_key(m.itvs, repr(m.eqs, v));
        if let Some(i) = lookup(m.itvs, repr(m.eqs, v)) {
            assert(in_range(i, rho(repr(m.eqs, v))));
        }
    }
}

proof fn lemma_equal_sum(
    m: PhiModel,
    v: AbstractValue,
    op: Binop,
    x: Operand,
    y: Operand,
    a: int,
    b: int,
    rho: Valuation,
)
    requires
        phi_wf(m),
        op is PlusA || op is PlusPI || op is MinusA || op is MinusPI || op is MinusPP,
        equal_binop_inner(m, v, op, x, y) is Some,
    ensures
        phi_wf((equal_binop_inner(m, v, op, x, y)->0).0),
        satisfies(m, rho) && operand_value(x, rho) == whole(a) && operand_value(y, rho) == whole(b)
            && op_value(op, a, b) == Some(rho(v)) ==> faithful(
            (equal_binop_inner(m, v, op, x, y)->0).1,
            (equal_binop_inner(m, v, op, x, y)->0).0,
            rho,
        ) && satisfies((equal_binop_inner(m, v, op, x, y)->0).0, rho),
{
    let given = satisfies(m, rho) && operand_value(x, rho) == whole(a) && operand_value(y, rho)
        == whole(b) && op_value(op, a, b) == Some(rho(v));
    let (lx, ly) = (operand_lin(m, x), operand_lin(m, y));
    lemma_operand_lin(m, x, rho);
    lemma_operand_lin(m, y, rho);
    if let (Some(i), Some(j)) = (operand_itv(m, x), operand_itv(m, y)) {
        if let Some(r) = CItv::binop_result(op, i, j) {
            law_run_interval(m, v, r, rho);
            if given {
                lemma_operand_has(m, x, a, rho);
                lemma_operand_has(m, y, b, rho);
                lemma_binop_result(op, i, j, a, b);
                assert(in_range(r, rho(v)));
            }
        }
    }
    let (m1, ok) = result_range(m, v, op, x, y)->0;
    if ok {
        let l = if op is PlusA || op is PlusPI {
            law_add(lx, ly, rho);
            lin_add(lx, ly)->0
        } else {
            law_sub(lx, ly, rho);
            lin_sub(lx, ly)->0
        };
        law_run_linear_eq(m1, v, l, rho);
        if given {
            let m2 = (run_linear_eq(m1, v, l)->0).0;
            assert(m2.itvs == m1.itvs && m2.terms == m1.terms);
        }
    }
}

/// Recording `v = x op y` for integers keeps every valuation in which it
/// holds.
pub proof fn law_equal_binop_inner(
    m: PhiModel,
    v: AbstractValue,
    op: Binop,
    x: Operand,
    y: Operand,
    a: int,
    b: int,
    rho: Valuation,
)
    requires
        phi_wf(m),
        equal_binop_inner(m, v, op, x, y) is Some,
    ensures
        phi_wf((equal_binop_inner(m, v, op, x, y)->0).0),
        satisfies(m, rho) && operand_value(x, rho) == whole(a) && operand_value(y, rho) == whole(b)
            && op_value(op, a, b) == Some(rho(v)) ==> faithful(
            (equal_binop_inner(m, v, op, x, y)->0).1,
            (equal_binop_inner(m, v, op, x, y)->0).0,
            rho,
        ) && satisfies((equal_binop_inner(m, v, op, x, y)->0).0, rho),
{
    let given = satisfies(m, rho) && operand_value(x, rho) == whole(a) && operand_value(y, rho)
        == whole(b) && op_value(op, a, b) == Some(rho(v));
    if given {
        lemma_operand_int(m, x, a, rho);
        lemma_operand_int(m, y, b, rho);
    }
    if let Some((c, d)) = operand_ints(m, x, y) {
        law_folded(op, c, d);
    }
    match op {
        Binop::PlusA(_) | Binop::PlusPI | Binop::MinusA(_) | Binop::MinusPI | Binop::MinusPP => {
            lemma_equal_sum(m, v, op, x, y, a, b, rho);
        },
        Binop::Eq | Binop::Ne | Binop::Lt | Binop::Gt | Binop::Le | Binop::Ge => {
            match operand_ints(m, x, y) {
                Some((c, d)) => {
                    law_run_const_eq(m, v, compare_result(op, c as int, d as int), rho);
                },
                _ => {
                    let t = TermEq { op, lhs: x, rhs: y };
                    let n = PhiModel { terms: put::<AbstractValue, TermEq>(m.terms, v, t), ..m };
                    if given {
                        assert(rho(v) == comparison_value(
                            op,
                            operand_value(x, rho),
                            operand_value(y, rho),
                        ));
                        assert forall|i: int| 0 <= i < n.terms.len() implies rho(
                            (#[trigger] n.terms[i]).0,
                        ) == comparison_value(
                            n.terms[i].1.op,
                            operand_value(n.terms[i].1.lhs, rho),
                            operand_value(n.terms[i].1.rhs, rho),
                        ) by {
                            lemma_put_members::<AbstractValue, TermEq>(m.terms, v, t, i);
                            if n.terms[i] != (v, t) {
                                let j = choose|j: int|
                                    0 <= j < m.terms.len() && #[trigger] m.terms[j] == n.terms[i];
                                assert(rho(m.terms[j].0) == comparison_value(
                                    m.terms[j].1.op,
                                    operand_value(m.terms[j].1.lhs, rho),
                                    operand_value(m.terms[j].1.rhs, rho),
                                ));
                            }
                        }
                        assert(models(n, rho));
                    }
                },
            }
        },
        Binop::DivF => {
            if let (Some(p), Some(q)) = (operand_rational(m, x), operand_rational(m, y)) {
                if q.numer != 0 {
                    lemma_q_div(p, q);
                    let d = q_div(p, q)->0;
                    lemma_lin_basics(d, v, rho);
                    law_run_linear_eq(m, v, lin_const(d), rho);
                    if given {
                        let m2 = (run_linear_eq(m, v, lin_const(d))->0).0;
                        assert(m2.itvs == m.itvs && m2.terms == m.terms);
                    }
                }
            }
        },
        Binop::Mult(_) | Binop::DivI | Binop::Mod | Binop::Shiftlt | Binop::Shiftrt => {
            if let Some((c, d)) = operand_ints(m, x, y) {
                if let Some(Some(e)) = fold_ints(op, c, d) {
                    law_run_const_eq(m, v, e, rho);
                }
            }
        },
        Binop::BAnd | Binop::BOr | Binop::BXor => {
            if let Some((c, d)) = operand_ints(m, x, y) {
                law_run_const_eq(m, v, fold_bits(op, c, d), rho);
            }
        },
        _ => {},
    }
}

proof fn lemma_marked_int(m: PhiModel, v: AbstractValue, rho: Valuation)
    requires
        satisfies(m, rho),
        is_whole(rho(v)),
    ensures
        satisfies(marked_int(m, v), rho),
{
    let n = marked_int(m, v);
    let r = repr(m.eqs, v);
    lemma_repr_value(m, v, rho);
    assert forall|i: int| 0 <= i < n.ints.len() implies is_whole(rho(#[trigger] n.ints[i])) by {
        lemma_set_put_contains::<AbstractValue>(m.ints, r, n.ints[i]);
        assert(n.ints.contains(n.ints[i]));
        if n.ints[i] != r {
            let j = choose|j: int| 0 <= j < m.ints.len() && m.ints[j] == n.ints[i];
            assert(is_whole(rho(m.ints[j])));
        }
    }
}

/// Which facts `equal_binop_inner` leaves alone.
proof fn lemma_inner_values(
    m: PhiModel,
    v: AbstractValue,
    op: Binop,
    x: Operand,
    y: Operand,
    rho: Valuation,
)
    requires
        phi_wf(m),
        equal_binop_inner(m, v, op, x, y) is Some,
    ensures
        (equal_binop_inner(m, v, op, x, y)->0).0.values == m.values,
{
    match op {
        Binop::PlusA(_) | Binop::PlusPI | Binop::MinusA(_) | Binop::MinusPI | Binop::MinusPP => {
            let (lx, ly) = (operand_lin(m, x), operand_lin(m, y));
            lemma_operand_lin(m, x, rho);
            lemma_operand_lin(m, y, rho);
            if let (Some(i), Some(j)) = (operand_itv(m, x), operand_itv(m, y)) {
                if let Some(r) = CItv::binop_result(op, i, j) {
                    lemma_interval_values(m, v, r, rho);
                    law_run_interval(m, v, r, rho);
                }
            }
            let (m1, ok) = result_range(m, v, op, x, y)->0;
            if ok {
                let l = if op is PlusA || op is PlusPI {
                    law_add(lx, ly, rho);
                    lin_add(lx, ly)->0
                } else {
                    law_sub(lx, ly, rho);
                    lin_sub(lx, ly)->0
                };
                law_run_linear_eq(m1, v, l, rho);
            }
        },
        Binop::DivF => {
            if let (Some(p), Some(q)) = (operand_rational(m, x), operand_rational(m, y)) {
                if q.numer != 0 {
                    lemma_q_div(p, q);
                    let d = q_div(p, q)->0;
                    lemma_lin_basics(d, v, rho);
                    law_run_linear_eq(m, v, lin_const(d), rho);
                }
            }
        },
        _ => {
            if let Some((c, d)) = operand_ints(m, x, y) {
                if is_comparison(op) {
                    lemma_const_eq_values(m, v, compare_result(op, c as int, d as int), rho);
                } else if op is BAnd || op is BOr || op is BXor {
                    lemma_const_eq_values(m, v, fold_bits(op, c, d), rho);
                } else if let Some(Some(e)) = fold_ints(op, c, d) {
                    if op is Mult || op is DivI || op is Mod || op is Shiftlt || op is Shiftrt {
                        lemma_const_eq_values(m, v, e, rho);
                    }
                }
            }
        },
    }
}

proof fn lemma_interval_values(m: PhiModel, v: AbstractValue, i: CItv, rho: Valuation)
    requires
        phi_wf(m),
        run_interval(m, v, i) is Some,
    ensures
        (run_interval(m, v, i)->0).0.values == m.values,
{
    let r = repr(m.eqs, v);
    if let Some(Some(better)) = super::solver::refined_itv(m, v, i) {
        let m1 = PhiModel { itvs: put::<AbstractValue, CItv>(m.itvs, r, better), ..m };
        if let Some(c) = better.singleton() {
            lemma_int_wf(c);
            lemma_lin_basics(q_int(c), r, rho);
            assert(phi_wf(m1));
            if known_const(m1, r) != Some(q_int(c)) {
                law_run_linear_eq(m1, r, lin_const(q_int(c)), rho);
            }
        }
    }
}

proof fn lemma_const_eq_values(m: PhiModel, v: AbstractValue, c: i64, rho: Valuation)
    requires
        phi_wf(m),
        run_const_eq(m, v, c) is Some,
    ensures
        (run_const_eq(m, v, c)->0).0.values == m.values,
{
    let r = repr(m.eqs, v);
    let i = CItv::Between(super::citv::Bound::Int(c), super::citv::Bound::Int(c));
    lemma_interval_values(m, r, i, rho);
    law_run_interval(m, r, i, rho);
    let (m1, ok) = run_interval(m, r, i)->0;
    if ok {
        lemma_int_wf(c);
        lemma_lin_basics(q_int(c), v, rho);
        law_run_linear_eq(m1, v, lin_const(q_int(c)), rho);
    }
}

/// Recording the result of an operation on integers, fresh or remembered,
/// keeps every valuation in which it is the result.
pub proof fn law_equal_binop(
    m: PhiModel,
    v: AbstractValue,
    op: Binop,
    x: Operand,
    y: Operand,
    a: int,
    b: int,
    rho: Valuation,
)
    requires
        phi_wf(m),
        equal_binop(m, v, op, x, y) is Some,
    ensures
        phi_wf((equal_binop(m, v, op, x, y)->0).0),
        satisfies(m, rho) && values_hold(m, rho) && operand_value(x, rho) == whole(a)
            && operand_value(y, rho) == whole(b) && op_value(op, a, b) == Some(rho(v)) ==> faithful(
            (equal_binop(m, v, op, x, y)->0).1,
            (equal_binop(m, v, op, x, y)->0).0,
            rho,
        ) && satisfies((equal_binop(m, v, op, x, y)->0).0, rho) && values_hold(
            (equal_binop(m, v, op, x, y)->0).0,
            rho,
        ),
{
    let given = satisfies(m, rho) && values_hold(m, rho) && operand_value(x, rho) == whole(a)
        && operand_value(y, rho) == whole(b) && op_value(op, a, b) == Some(rho(v));
    let key = term_key(m, op, x, y);
    lemma_lookup_has_key(m.values, key);
    let hit = lookup(m.values, key);
    if hit is Some && hit->0 != v {
        let w = hit->0;
        law_run_var_equal(m, v, w, rho);
        if given {
            lemma_canonical_operand(m, x, rho);
            lemma_canonical_operand(m, y, rho);
            assert(value_holds(key, w, rho));
            assert(rho(v) == rho(w));
            let n = (run_var_equal(m, v, w)->0).0;
            assert(n.itvs == m.itvs && n.terms == m.terms && n.values == m.values);
        }
    } else {
        let m0 = binop_integer_result(m, v, op);
        if given && is_comparison(op) {
            assert(rho(v) == whole(compare_result(op, a, b) as int));
            lemma_marked_int(m, v, rho);
        }
        law_equal_binop_inner(m0, v, op, x, y, a, b, rho);
        lemma_inner_values(m0, v, op, x, y, rho);
        let m1 = (equal_binop_inner(m0, v, op, x, y)->0).0;
        let n = with_value(m1, v, op, x, y);
        if given {
            lemma_canonical_operand(m1, x, rho);
            lemma_canonical_operand(m1, y, rho);
            let k1 = term_key(m1, op, x, y);
            assert(value_holds(k1, v, rho)) by {
                assert forall|c: int, d: int|
                    operand_value(k1.lhs, rho) == #[trigger] whole(c) && operand_value(k1.rhs, rho)
                        == #[trigger] whole(d) && op_value(op, c, d) is Some implies Some(rho(v))
                    == op_value(op, c, d) by {
                    assert(c == a && d == b);
                }
            }
            assert forall|i: int| 0 <= i < n.values.len() implies value_holds(
                (#[trigger] n.values[i]).0,
                n.values[i].1,
                rho,
            ) by {
                lemma_put_members::<TermKey, AbstractValue>(m1.values, k1, v, i);
                if n.values[i] != (k1, v) {
                    let j = choose|j: int|
                        0 <= j < m1.values.len() && #[trigger] m1.values[j] == n.values[i];
                    assert(value_holds(m.values[j].0, m.values[j].1, rho));
                }
            }
            assert(models(n, rho));
            assert(satisfies(n, rho));
        }
    }
}

/// The operands of an order that a condition states are integers.
pub open spec fn integral_order(a: Atom, rho: Valuation) -> bool {
    a is LessEqual || a is LessThan ==> {
        &&& simple_operand(a.lhs()) matches Some(o) ==> is_whole(operand_value(o, rho))
        &&& simple_operand(a.rhs()) matches Some(o) ==> is_whole(operand_value(o, rho))
    }
}

proof fn lemma_simple_operand(t: Term, rho: Valuation)
    ensures
        simple_operand(t) matches Some(o) ==> operand_value(o, rho) == term_value(t, rho),
{
}

/// Recording the constraint that a condition is keeps every valuation in which
/// the condition holds.
pub proof fn law_enforce(f: FormulaModel, a: Atom, rho: Valuation)
    requires
        phi_wf(f.phi),
        enforce(f, a) is Some,
    ensures
        phi_wf((enforce(f, a)->0).0.phi),
        satisfies(f.phi, rho) && atom_holds(a, rho) && integral_order(a, rho) ==> faithful(
            (enforce(f, a)->0).1,
            (enforce(f, a)->0).0.phi,
            rho,
        ) && satisfies((enforce(f, a)->0).0.phi, rho),
{
    let m = f.phi;
    match a {
        Atom::Equal(Term::Var(v), Term::Var(w)) => {
            law_run_var_equal(m, v, w, rho);
            if satisfies(m, rho) && atom_holds(a, rho) {
                let n = (run_var_equal(m, v, w)->0).0;
                assert(n.itvs == m.itvs && n.terms == m.terms);
            }
        },
        Atom::Equal(Term::Var(v), Term::Const(c)) => law_run_const_eq(m, v, c, rho),
        Atom::Equal(Term::Const(c), Term::Var(v)) => law_run_const_eq(m, v, c, rho),
        Atom::LessEqual(x, y) => lemma_enforce_order(f, a, Binop::Le, rho),
        Atom::LessThan(x, y) => lemma_enforce_order(f, a, Binop::Lt, rho),
        _ => lemma_plain_atom(m, a, rho),
    }
}

proof fn lemma_plain_atom(m: PhiModel, a: Atom, rho: Valuation)
    requires
        phi_wf(m),
        run_atom(m, a) is Some,
    ensures
        phi_wf((run_atom(m, a)->0).0),
        satisfies(m, rho) && atom_holds(a, rho) ==> faithful(
            (run_atom(m, a)->0).1,
            (run_atom(m, a)->0).0,
            rho,
        ) && satisfies((run_atom(m, a)->0).0, rho),
{
    law_run_atom(m, a, rho);
    if satisfies(m, rho) && atom_holds(a, rho) {
        let n = (run_atom(m, a)->0).0;
        assert(n.itvs == m.itvs && n.terms == m.terms);
    }
}

proof fn lemma_enforce_order(f: FormulaModel, a: Atom, bop: Binop, rho: Valuation)
    requires
        phi_wf(f.phi),
        a is LessEqual && bop == Binop::Le || a is LessThan && bop == Binop::Lt,
        enforce_order(f, a, bop, a.lhs(), a.rhs()) is Some,
    ensures
        phi_wf((enforce_order(f, a, bop, a.lhs(), a.rhs())->0).0.phi),
        satisfies(f.phi, rho) && atom_holds(a, rho) && integral_order(a, rho) ==> faithful(
            (enforce_order(f, a, bop, a.lhs(), a.rhs())->0).1,
            (enforce_order(f, a, bop, a.lhs(), a.rhs())->0).0.phi,
            rho,
        ) && satisfies((enforce_order(f, a, bop, a.lhs(), a.rhs())->0).0.phi, rho),
{
    let m = f.phi;
    match (simple_operand(a.lhs()), simple_operand(a.rhs())) {
        (Some(o), Some(p)) => {
            lemma_simple_operand(a.lhs(), rho);
            lemma_simple_operand(a.rhs(), rho);
            let x = choose|k: int| operand_value(o, rho) == #[trigger] whole(k);
            let y = choose|k: int| operand_value(p, rho) == #[trigger] whole(k);
            law_check_ranges(m, bop, o, p, x, y, rho);
            let (m1, ok) = super::formula_model::check_ranges(m, bop, o, p)->0;
            if ok {
                lemma_plain_atom(m1, a, rho);
            }
        },
        _ => lemma_plain_atom(m, a, rho),
    }
}

/// The operands of every comparison remembered by the state are integers.
pub open spec fn integral_terms(m: PhiModel, rho: Valuation) -> bool {
    forall|i: int|
        0 <= i < m.terms.len() ==> is_whole(operand_value((#[trigger] m.terms[i]).1.lhs, rho))
            && is_whole(operand_value(m.terms[i].1.rhs, rho))
}

/// Pruning a value against a constant keeps every valuation that takes the
/// branch, also where the value is the result of a comparison between
/// integers.
pub proof fn law_prune_const(
    f: FormulaModel,
    v: AbstractValue,
    c: i64,
    negated: bool,
    rho: Valuation,
)
    requires
        phi_wf(f.phi),
        prune_const(f, v, c, negated) is Some,
    ensures
        phi_wf((prune_const(f, v, c, negated)->0).0.phi),
        satisfies(f.phi, rho) && integral_terms(f.phi, rho) && (rho(v) == c as real) != negated
            ==> faithful(
            (prune_const(f, v, c, negated)->0).1,
            (prune_const(f, v, c, negated)->0).0.phi,
            rho,
        ) && satisfies((prune_const(f, v, c, negated)->0).0.phi, rho),
{
    let m = f.phi;
    let given = satisfies(m, rho) && integral_terms(m, rho) && (rho(v) == c as real) != negated;
    if let Some(a) = comparison_of(m, v, c, negated) {
        law_enforce(f, a, rho);
        if given {
            lemma_comparison_of(m, v, c, negated, rho);
        }
        let (g, res) = enforce(f, a)->0;
        if res is Sat {
            lemma_prune_end(g.phi, v, c, negated, rho);
        }
    } else {
        lemma_prune_end(m, v, c, negated, rho);
    }
}

proof fn lemma_prune_end(m: PhiModel, v: AbstractValue, c: i64, negated: bool, rho: Valuation)
    requires
        phi_wf(m),
    ensures
        negated && not_equal(m, Operand::AbstractValue(v), Operand::ConstOperand(c)) is Some ==> {
            let (n, res) = not_equal(m, Operand::AbstractValue(v), Operand::ConstOperand(c))->0;
            phi_wf(n) && (satisfies(m, rho) && rho(v) != c as real ==> faithful(res, n, rho)
                && satisfies(n, rho))
        },
        !negated && run_const_eq(m, v, c) is Some ==> {
            let (n, res) = run_const_eq(m, v, c)->0;
            phi_wf(n) && (satisfies(m, rho) && rho(v) == c as real ==> faithful(res, n, rho)
                && satisfies(n, rho))
        },
{
    if negated {
        if not_equal(m, Operand::AbstractValue(v), Operand::ConstOperand(c)) is Some {
            law_not_equal(m, Operand::AbstractValue(v), Operand::ConstOperand(c), rho);
        }
    } else if run_const_eq(m, v, c) is Some {
        law_run_const_eq(m, v, c, rho);
    }
}

pub proof fn lemma_comparison_of(m: PhiModel, v: AbstractValue, c: i64, negated: bool, rho: Valuation)
    requires
        satisfies(m, rho),
        integral_terms(m, rho),
        (rho(v) == c as real) != negated,
        comparison_of(m, v, c, negated) is Some,
    ensures
        atom_holds(comparison_of(m, v, c, negated)->0, rho),
        integral_order(comparison_of(m, v, c, negated)->0, rho),
{
    let r = repr(m.eqs, v);
    lemma_repr_value(m, v, rho);
    lemma_lookup_has_key(m.terms, v);
    lemma_lookup_has_key(m.terms, r);
    let k = if lookup(m.terms, v) is Some {
        v
    } else {
        r
    };
    let t = lookup(m.terms, k)->0;
    let i = choose|i: int| 0 <= i < m.terms.len() && (#[trigger] m.terms[i]) == (k, t);
    assert(rho(k) == comparison_value(t.op, operand_value(t.lhs, rho), operand_value(t.rhs, rho)));
    assert(is_whole(operand_value(m.terms[i].1.lhs, rho)));
    lemma_operand_term_value(m, t.lhs, rho);
    lemma_operand_term_value(m, t.rhs, rho);
}

proof fn lemma_operand_term_value(m: PhiModel, o: Operand, rho: Valuation)
    requires
        models(m, rho),
    ensures
        term_value(operand_term(m, o), rho) == operand_value(o, rho),
        simple_operand(operand_term(m, o)) matches Some(p) && operand_value(p, rho)
            == operand_value(o, rho),
{
    if let Operand::AbstractValue(v) = o {
        lemma_repr_value(m, v, rho);
    }
}

} // verus!
