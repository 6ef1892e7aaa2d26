//! What a solver without equations learns from a first one.

use super::atom::Atom;
use super::citv::{Bound, CItv};
use super::lin_arith::{
    add_coeff, add_coeffs, divide_others, lin_add, lin_as_const, lin_as_var, lin_const, lin_neg,
    lin_pivot, lin_scale, lin_sub, lin_var, same_var, Coeffs, Lin,
};
use super::solver::{
    known_const, lin_term, mentioning, non_integer_clash, normalize, normalize_from, room, run_add,
    run_const_eq, run_linear_eq, run_updates, solve_for, substitute_atoms, substituted, with_zero,
    PhiModel,
};
use super::var_uf::repr;
use crate::abstract_value::AbstractValue;
use crate::ordered::{lookup, put};
use crate::rational::{law_integers, q_int, q_neg, Q};
use crate::sat_unsat::SatUnsat;
use vstd::prelude::*;

verus! {

/// A variable without an equation stands for its representative.
pub proof fn lemma_normalize_var(m: PhiModel, v: AbstractValue)
    requires
        lookup(m.lin, repr(m.eqs, v)) is None,
    ensures
        normalize(m, lin_var(v)) == Some(lin_var(repr(m.eqs, v))),
{
    let r = repr(m.eqs, v);
    let zero = lin_const(q_int(0));
    let s = lin_var(v).vars;
    assert(s[0] == (v, q_int(1)));
    assert(s.drop_first() =~= Coeffs::empty());
    let t = lin_var(r);
    assert(lin_scale(t, q_int(1)) == Some(t));
    law_integers(0, 0);
    law_integers(0, 1);
    assert(t.vars[0] == (r, q_int(1)));
    assert(t.vars.drop_first() =~= Coeffs::empty());
    assert(add_coeff(Coeffs::empty(), r, q_int(1)) == Some(t.vars)) by {
        assert(put::<AbstractValue, Q>(Coeffs::empty(), r, q_int(1)) =~= t.vars);
    }
    assert(add_coeffs(t.vars, Coeffs::empty(), same_var()) == Some(t.vars));
    assert(add_coeffs(Coeffs::empty(), t.vars, same_var()) == Some(t.vars));
    assert(lin_add(zero, t) == Some(t));
    assert(normalize_from(m, t, Coeffs::empty()) == Some(t));
}

/// The solution of `r = c` is `c`.
proof fn lemma_solve_constant(m: PhiModel, v: AbstractValue, c: i64)
    requires
        c > i64::MIN,
        m.lin.len() == 0,
    ensures
        solve_for(m, v, lin_const(q_int(c))) == Some(
            SatUnsat::Sat(Some((repr(m.eqs, v), lin_const(q_int(c))))),
        ),
{
    let r = repr(m.eqs, v);
    let l = lin_const(q_int(c));
    assert(normalize(m, l) == Some(l));
    lemma_normalize_var(m, v);
    let n = Lin { c: q_int((-c) as i64), vars: Coeffs::empty() };
    assert(lin_neg(l)->0.vars =~= n.vars);
    assert(lin_neg(l) == Some(n));
    law_integers(0, (-c) as i64);
    let d = Lin { c: q_int((-c) as i64), vars: lin_var(r).vars };
    assert(add_coeffs(lin_var(r).vars, n.vars, same_var()) == Some(lin_var(r).vars));
    assert(lin_add(lin_var(r), n) == Some(d));
    assert(lin_sub(lin_var(r), l) == Some(d));
    assert(d.vars[0] == (r, q_int(1)));
    assert(d.vars.last() == (r, q_int(1)));
    assert(d.vars.drop_last() =~= Coeffs::empty());
    law_integers((-c) as i64, 1);
    law_integers(c, 1);
    assert(q_neg(q_int(1)) == Some(q_int((-1) as i64)));
    assert(divide_others(d.vars.drop_last(), r, q_int((-1) as i64)) == Some(Coeffs::empty()));
    assert(divide_others(d.vars, r, q_int((-1) as i64)) == Some(Coeffs::empty()));
    assert(lin_pivot(d, r, q_int(1)) == Some(l));
}

/// A constant that is known says nothing new.
proof fn lemma_constant_again(m: PhiModel, v: AbstractValue, c: i64)
    requires
        c > i64::MIN,
        lookup(m.lin, repr(m.eqs, v)) == Some(lin_const(q_int(c))),
    ensures
        solve_for(m, v, lin_const(q_int(c))) matches Some(SatUnsat::Sat(None)),
{
    let l = lin_const(q_int(c));
    let zero = lin_const(q_int(0));
    let s = lin_var(v).vars;
    assert(s[0] == (v, q_int(1)));
    assert(s.drop_first() =~= Coeffs::empty());
    assert(lin_scale(l, q_int(1)) == Some(l));
    law_integers(0, c);
    assert(add_coeffs(Coeffs::empty(), Coeffs::empty(), same_var()) == Some(Coeffs::empty()));
    assert(lin_add(zero, l) == Some(l));
    assert(normalize_from(m, l, Coeffs::empty()) == Some(l));
    assert(normalize(m, lin_var(v)) == Some(l));
    assert(normalize(m, l) == Some(l));
    let n = Lin { c: q_int((-c) as i64), vars: Coeffs::empty() };
    assert(lin_neg(l)->0.vars =~= n.vars);
    assert(lin_neg(l) == Some(n));
    law_integers(c, (-c) as i64);
    assert(lin_sub(l, l) == Some(zero));
}

/// Recording a constant in a solver without equations and comparisons.
proof fn lemma_first_equation(m: PhiModel, r: AbstractValue, c: i64)
    requires
        m.lin.len() == 0,
        m.atoms.len() == 0,
        c > i64::MIN,
        repr(m.eqs, r) == r,
    ensures
        run_linear_eq(m, r, lin_const(q_int(c))) matches Some((n, outcome)) && outcome is Sat
            && n.eqs == m.eqs && lookup(n.lin, r) == Some(lin_const(q_int(c))),
{
    let l = lin_const(q_int(c));
    lemma_solve_constant(m, r, c);
    assert(run_linear_eq(m, r, l) == run_add(m, r, l));
    assert(lin_as_var(l) is None);
    assert(!non_integer_clash(m, r, l));
    assert(substituted(m.lin, r, l, Seq::empty()) == Some(
        Seq::<(AbstractValue, Lin)>::empty(),
    ));
    let none: Seq<AbstractValue> = Seq::empty();
    assert(mentioning(m.lin, r, Seq::empty()) =~= none);
    let eqs = with_zero(Seq::empty(), r, lin_as_const(l));
    let n = PhiModel {
        lin: put::<AbstractValue, Lin>(Seq::<(AbstractValue, Lin)>::empty(), r, l),
        ..m
    };
    assert(run_updates(room(m), n, none, eqs) == Some((n, SatUnsat::Sat(eqs))));
    assert(n.lin[0] == (r, l));
    assert(lookup(n.lin, r) == Some(l));
    assert(substitute_atoms(n.atoms, r, lin_term(l), Seq::empty()) == Some(
        (Seq::<Atom>::empty(), true),
    ));
}

/// A solver without equations and comparisons that learns that a value, of which
/// no range is known, is a constant knows it afterwards.
pub proof fn law_first_constant(m: PhiModel, v: AbstractValue, c: i64)
    requires
        m.lin.len() == 0,
        m.atoms.len() == 0,
        lookup(m.itvs, repr(m.eqs, repr(m.eqs, v))) is None,
        repr(m.eqs, repr(m.eqs, v)) == repr(m.eqs, v),
        c > i64::MIN,
    ensures
        run_const_eq(m, v, c) matches Some((after, outcome)) && outcome is Sat && known_const(
            after,
            v,
        ) == Some(q_int(c)),
{
    let r = repr(m.eqs, v);
    let l = lin_const(q_int(c));
    let i = CItv::Between(Bound::Int(c), Bound::Int(c));
    let m1 = PhiModel { itvs: put::<AbstractValue, CItv>(m.itvs, r, i), ..m };
    assert(i.singleton() == Some(c));
    lemma_first_equation(m1, r, c);
    let (m2, _) = run_linear_eq(m1, r, l)->0;
    lemma_constant_again(m2, v, c);
}

} // verus!
