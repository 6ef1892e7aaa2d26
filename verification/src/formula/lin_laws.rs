//! Addition of linear expressions, coefficient by coefficient.

use super::lin_arith::{
    add_coeff, add_coeffs, coeffs_wf, divide_others, law_add, law_neg, law_scale, lemma_add_coeff,
    lemma_coeffs_del, lin_add, lin_neg, lin_scale, lin_solve, lin_sub, lin_subst, lin_wf, same_var,
    Coeffs, Lin,
};
use crate::abstract_value::AbstractValue;
use crate::ordered::{
    del, lemma_lookup_del, lemma_lookup_has_key, lemma_lookup_put, lemma_sorted_drop_first, lookup,
    OrdKey,
};
use crate::rational::{
    law_add_commutes, law_add_zero, lemma_int_wf, lemma_q_add, lemma_zero, q_add, q_int, q_neg, Q,
};
use crate::sat_unsat::SatUnsat;
use vstd::prelude::*;

verus! {

/// The coefficient of `v`; zero where it has none.
pub open spec fn coeff(s: Coeffs, v: AbstractValue) -> Q {
    match lookup(s, v) {
        Some(q) => q,
        None => q_int(0),
    }
}

pub proof fn lemma_coeff(s: Coeffs, v: AbstractValue)
    requires
        coeffs_wf(s),
    ensures
        coeff(s, v).wf(),
        lookup(s, v) is Some <==> coeff(s, v).numer != 0,
{
    lemma_int_wf(0);
    lemma_lookup_has_key(s, v);
    if lookup(s, v) is Some {
        let i = choose|i: int| 0 <= i < s.len() && (#[trigger] s[i]) == (v, lookup(s, v)->0);
        assert(s[i].1.wf());
    }
}

/// The coefficient after one has been added.
proof fn lemma_add_coeff_at(s: Coeffs, x: AbstractValue, q: Q, v: AbstractValue)
    requires
        coeffs_wf(s),
        add_coeff(s, x, q) is Some,
    ensures
        coeffs_wf(add_coeff(s, x, q)->0),
        coeff(add_coeff(s, x, q)->0, v) == (if v == x {
            q_add(coeff(s, x), q)->0
        } else {
            coeff(s, v)
        }),
{
    lemma_add_coeff(s, x, q, |w: AbstractValue| 0real);
    lemma_q_add(coeff(s, x), q);
    let r = q_add(coeff(s, x), q)->0;
    if r.numer == 0 {
        lemma_lookup_del::<AbstractValue, Q>(s, x, v);
        lemma_zero(r);
    } else {
        lemma_lookup_put::<AbstractValue, Q>(s, x, r, v);
    }
}

proof fn lemma_tail(t: Coeffs, v: AbstractValue)
    requires
        coeffs_wf(t),
        t.len() > 0,
    ensures
        coeffs_wf(t.drop_first()),
        lookup(t.drop_first(), t[0].0) is None,
        v != t[0].0 ==> coeff(t, v) == coeff(t.drop_first(), v),
{
    let rest = t.drop_first();
    lemma_sorted_drop_first::<AbstractValue, Q>(t);
    assert forall|i: int| 0 <= i < rest.len() implies (#[trigger] rest[i]).1.wf()
        && rest[i].1.numer != 0 by {
        assert(rest[i] == t[i + 1]);
    }
    lemma_lookup_has_key(rest, t[0].0);
    if lookup(rest, t[0].0) is Some {
        let i = choose|i: int| 0 <= i < rest.len() && (#[trigger] rest[i]).0 == t[0].0;
        assert(rest[i] == t[i + 1]);
        assert(<AbstractValue as OrdKey>::lt(t[0].0, t[i + 1].0));
    }
}

proof fn lemma_add_coeffs_at(s: Coeffs, t: Coeffs, v: AbstractValue)
    requires
        coeffs_wf(s),
        coeffs_wf(t),
        add_coeffs(s, t, same_var()) is Some,
    ensures
        q_add(coeff(s, v), coeff(t, v)) == Some(coeff(add_coeffs(s, t, same_var())->0, v)),
    decreases t.len(),
{
    lemma_coeff(s, v);
    if t.len() == 0 {
        law_add_zero(coeff(s, v));
    } else {
        let (x, q) = t[0];
        let s1 = add_coeff(s, x, q)->0;
        lemma_add_coeff_at(s, x, q, v);
        lemma_tail(t, v);
        lemma_add_coeffs_at(s1, t.drop_first(), v);
        if v == x {
            lemma_coeff(s1, v);
            law_add_zero(coeff(s1, v));
        }
    }
}

/// Where every pair of coefficients can be added, so can the expressions.
pub proof fn lemma_add_coeffs_defined(s: Coeffs, t: Coeffs)
    requires
        coeffs_wf(s),
        coeffs_wf(t),
        forall|v: AbstractValue| (#[trigger] q_add(coeff(s, v), coeff(t, v))) is Some,
    ensures
        add_coeffs(s, t, same_var()) is Some,
    decreases t.len(),
{
    if t.len() > 0 {
        let (x, q) = t[0];
        assert(coeff(t, x) == q);
        assert(q_add(coeff(s, x), coeff(t, x)) is Some);
        let s1 = add_coeff(s, x, q)->0;
        let rest = t.drop_first();
        lemma_tail(t, x);
        assert forall|v: AbstractValue| (#[trigger] q_add(coeff(s1, v), coeff(rest, v))) is Some by {
            lemma_add_coeff_at(s, x, q, v);
            lemma_tail(t, v);
            if v == x {
                lemma_coeff(s1, v);
                law_add_zero(coeff(s1, v));
            } else {
                assert(q_add(coeff(s, v), coeff(t, v)) is Some);
            }
        }
        lemma_add_coeff_at(s, x, q, x);
        lemma_add_coeffs_defined(s1, rest);
    }
}

/// Expressions with the same coefficients are the same.
proof fn lemma_same_coeffs(s: Coeffs, t: Coeffs)
    requires
        coeffs_wf(s),
        coeffs_wf(t),
        forall|v: AbstractValue| #[trigger] coeff(s, v) == coeff(t, v),
    ensures
        s == t,
    decreases s.len() + t.len(),
{
    if s.len() > 0 && t.len() > 0 {
        let (x, y) = (s[0].0, t[0].0);
        assert(coeff(s, x) == s[0].1 && coeff(t, y) == t[0].1);
        assert(coeff(t, x) == s[0].1 && coeff(s, y) == t[0].1);
        lemma_coeff(t, x);
        lemma_coeff(s, y);
        lemma_lookup_has_key(t, x);
        lemma_lookup_has_key(s, y);
        let i = choose|i: int| 0 <= i < t.len() && (#[trigger] t[i]).0 == x;
        let j = choose|j: int| 0 <= j < s.len() && (#[trigger] s[j]).0 == y;
        if x != y {
            assert(<AbstractValue as OrdKey>::lt(t[0].0, t[i].0));
            assert(<AbstractValue as OrdKey>::lt(s[0].0, s[j].0));
        }
        assert(x == y);
        let (p, q) = (s.drop_first(), t.drop_first());
        lemma_tail(s, x);
        lemma_tail(t, x);
        assert forall|v: AbstractValue| #[trigger] coeff(p, v) == coeff(q, v) by {
            assert(coeff(s, v) == coeff(t, v));
            lemma_tail(s, v);
            lemma_tail(t, v);
        }
        lemma_same_coeffs(p, q);
        assert(s =~= seq![s[0]] + p);
        assert(t =~= seq![t[0]] + q);
    } else if s.len() > 0 {
        assert(coeff(s, s[0].0) == s[0].1);
        assert(coeff(s, s[0].0) == coeff(t, s[0].0));
    } else if t.len() > 0 {
        assert(coeff(t, t[0].0) == t[0].1);
        assert(coeff(s, t[0].0) == coeff(t, t[0].0));
    } else {
        assert(s =~= t);
    }
}

/// A sum has the sum of the constants and, for each variable, the sum of the
/// coefficients; none of those it stores is zero.
pub proof fn law_add_coefficients(a: Lin, b: Lin, v: AbstractValue)
    requires
        lin_wf(a),
        lin_wf(b),
        lin_add(a, b) is Some,
    ensures
        q_add(a.c, b.c) == Some((lin_add(a, b)->0).c),
        q_add(coeff(a.vars, v), coeff(b.vars, v)) == Some(coeff((lin_add(a, b)->0).vars, v)),
        lin_wf(lin_add(a, b)->0),
{
    lemma_add_coeffs_at(a.vars, b.vars, v);
    law_add(a, b, |w: AbstractValue| 0real);
}

/// The order of the summands does not matter.
pub proof fn law_add_either_way(a: Lin, b: Lin)
    requires
        lin_wf(a),
        lin_wf(b),
    ensures
        lin_add(a, b) == lin_add(b, a),
{
    if lin_add(a, b) is Some {
        lemma_add_either_way(a, b);
    } else if lin_add(b, a) is Some {
        lemma_add_either_way(b, a);
    }
}

proof fn lemma_add_either_way(a: Lin, b: Lin)
    requires
        lin_wf(a),
        lin_wf(b),
        lin_add(a, b) is Some,
    ensures
        lin_add(b, a) == lin_add(a, b),
{
    law_add_commutes(a.c, b.c);
    assert forall|v: AbstractValue| (#[trigger] q_add(coeff(b.vars, v), coeff(a.vars, v))) is Some by {
        lemma_add_coeffs_at(a.vars, b.vars, v);
        law_add_commutes(coeff(a.vars, v), coeff(b.vars, v));
    }
    lemma_add_coeffs_defined(b.vars, a.vars);
    let s = (lin_add(a, b)->0).vars;
    let t = (lin_add(b, a)->0).vars;
    law_add(a, b, |w: AbstractValue| 0real);
    law_add(b, a, |w: AbstractValue| 0real);
    assert forall|v: AbstractValue| #[trigger] coeff(s, v) == coeff(t, v) by {
        lemma_add_coeffs_at(a.vars, b.vars, v);
        lemma_add_coeffs_at(b.vars, a.vars, v);
        law_add_commutes(coeff(a.vars, v), coeff(b.vars, v));
    }
    lemma_same_coeffs(s, t);
}

/// `w` occurs in the expression.
pub open spec fn mentions(l: Lin, w: AbstractValue) -> bool {
    lookup(l.vars, w) is Some
}

/// Bindings of the same keys.
pub proof fn lemma_same_keys<A, B>(s: Seq<(AbstractValue, A)>, t: Seq<(AbstractValue, B)>, w: AbstractValue)
    requires
        s.len() == t.len(),
        forall|i: int| 0 <= i < s.len() ==> (#[trigger] s[i]).0 == t[i].0,
    ensures
        lookup(s, w) is Some <==> lookup(t, w) is Some,
{
    lemma_lookup_has_key(s, w);
    lemma_lookup_has_key(t, w);
    if lookup(s, w) is Some {
        let i = choose|i: int| 0 <= i < s.len() && (#[trigger] s[i]).0 == w;
        assert(t[i].0 == w);
    }
    if lookup(t, w) is Some {
        let i = choose|i: int| 0 <= i < t.len() && (#[trigger] t[i]).0 == w;
        assert(s[i].0 == w);
    }
}

/// A sum mentions what its summands do.
pub proof fn lemma_add_mentions(a: Lin, b: Lin, w: AbstractValue)
    requires
        lin_wf(a),
        lin_wf(b),
        lin_add(a, b) is Some,
        mentions(lin_add(a, b)->0, w),
    ensures
        mentions(a, w) || mentions(b, w),
{
    law_add_coefficients(a, b, w);
    lemma_coeff((lin_add(a, b)->0).vars, w);
    lemma_int_wf(0);
    law_add_zero(q_int(0));
}

/// A multiple mentions no other variables.
pub proof fn lemma_scale_mentions(a: Lin, q: Q, w: AbstractValue)
    requires
        lin_scale(a, q) is Some,
        mentions(lin_scale(a, q)->0, w),
    ensures
        mentions(a, w),
{
    if q.numer != 0 && q.numer != q.denom {
        lemma_same_keys(a.vars, (lin_scale(a, q)->0).vars, w);
    }
}

/// A difference mentions what its two sides do.
pub proof fn lemma_sub_mentions(a: Lin, b: Lin, w: AbstractValue)
    requires
        lin_wf(a),
        lin_wf(b),
        lin_sub(a, b) is Some,
        mentions(lin_sub(a, b)->0, w),
    ensures
        mentions(a, w) || mentions(b, w),
{
    let n = lin_neg(b)->0;
    law_neg(b, |v: AbstractValue| 0real);
    lemma_add_mentions(a, n, w);
    lemma_same_keys(b.vars, n.vars, w);
}

proof fn lemma_divided_mentions(s: Coeffs, x: AbstractValue, d: Q, w: AbstractValue)
    requires
        divide_others(s, x, d) is Some,
        lookup(divide_others(s, x, d)->0, w) is Some,
    ensures
        lookup(s, w) is Some,
        w != x,
    decreases s.len(),
{
    lemma_lookup_has_key(s, w);
    if s.len() > 0 {
        let e = s.last();
        let front = s.drop_last();
        let r = divide_others(front, x, d)->0;
        let t = divide_others(s, x, d)->0;
        lemma_lookup_has_key(t, w);
        lemma_lookup_has_key(r, w);
        lemma_lookup_has_key(front, w);
        if lookup(r, w) is Some {
            lemma_divided_mentions(front, x, d, w);
            let i = choose|i: int| 0 <= i < front.len() && (#[trigger] front[i]).0 == w;
            assert(s[i].0 == w);
        } else {
            let i = choose|i: int| 0 <= i < t.len() && (#[trigger] t[i]).0 == w;
            if i < r.len() {
                assert(r[i].0 == w);
            }
            assert(s[s.len() - 1].0 == w);
        }
    }
}

/// The variable that an equation is solved for occurs in it, and the solution
/// mentions the others only.
pub proof fn lemma_solve_mentions(l: Lin, w: AbstractValue)
    requires
        lin_solve(l) is Some,
    ensures
        lin_solve(l)->0 matches SatUnsat::Sat(Some((x, p))) ==> mentions(l, x) && (mentions(p, w)
            ==> mentions(l, w) && w != x),
{
    if let SatUnsat::Sat(Some((x, p))) = lin_solve(l)->0 {
        let d = q_neg(l.vars[0].1)->0;
        if mentions(p, w) {
            lemma_divided_mentions(l.vars, x, d, w);
        }
    }
}

/// What substitution leaves: the other variables, and those of the replacement
/// where it was made.
pub proof fn lemma_subst_mentions(l: Lin, x: AbstractValue, r: Lin, w: AbstractValue)
    requires
        lin_wf(l),
        lin_wf(r),
        lin_subst(l, x, r) is Some,
        mentions(lin_subst(l, x, r)->0, w),
    ensures
        (mentions(l, w) && w != x) || (mentions(l, x) && mentions(r, w)),
{
    if let Some(q) = lookup(l.vars, x) {
        let rest = Lin { c: l.c, vars: del(l.vars, x) };
        let s = lin_scale(r, q)->0;
        lemma_lookup_has_key(l.vars, x);
        let i = choose|i: int| 0 <= i < l.vars.len() && (#[trigger] l.vars[i]) == (x, q);
        assert(l.vars[i].1.wf());
        lemma_coeffs_del(l.vars, x);
        law_scale(r, q, |v: AbstractValue| 0real);
        lemma_add_mentions(rest, s, w);
        lemma_lookup_del::<AbstractValue, Q>(l.vars, x, w);
        if mentions(s, w) {
            lemma_scale_mentions(r, q, w);
        }
    }
}

} // verus!
