//! What follows for a value from the equations of a state is known of it.
//!
//! The equations of a state speak of representatives only, and each is solved: no
//! variable that has one stands on a right-hand side. Such equations determine a value
//! only by saying so. So whatever was recorded of a value that fixes it as a constant
//! leaves that constant known.

use super::Operand;
use super::citv::{in_i64, Bound, CItv};
use super::entail_laws::{
    law_const_eq_entails, law_interval_entails, law_linear_eq_entails, law_var_equal_entails,
};
use super::fold_laws::{integer_result, law_folded};
use super::formula_model::{
    binop_integer_result, equal_binop, equal_binop_inner, operand_ints, with_value,
};
use super::lin_arith::{
    coeff_value, law_add, law_scale, lemma_lin_basics, lin_add, lin_as_const, lin_as_var, lin_const,
    lin_scale, lin_solve, lin_sub, lin_value, lin_var, lin_wf, sum, Coeffs, Lin, Valuation,
};
use super::lin_laws::{
    lemma_add_mentions, lemma_scale_mentions, lemma_solve_mentions, lemma_sub_mentions, mentions,
};
use super::meaning::{
    classes_hold, equations_hold, law_run_linear_eq, law_run_propagate, law_run_var_equal,
    lemma_as_const, lemma_eq_value, lemma_eq_wf, lemma_normalize, lemma_renamed_in,
    lemma_repr_value, lemma_solve_equal, lemma_solved_in, lemma_substitute_atoms, lemma_substituted,
    lemma_union, lemma_without_eq, phi_wf, solved_apart, solves,
};
use super::path_laws::{law_run_interval, lemma_sum_update};
use super::phi::NewEq;
use super::solver::{
    displaced, empty_phi, known_const, lin_term, mentioning, normalize, normalize_from, prepend,
    refined_itv, renamed_lin, room, run_add, run_const_eq, run_interval, run_linear_eq,
    run_propagate, run_updates, run_var_equal, solve_for, staying, substitute_atoms, substituted,
    term_key, with_zero, without_eq, PhiModel,
};
use super::var_uf::{
    law_representative_is_smallest, law_union_merges_two_classes, repr, union_result,
};
use crate::abstract_value::AbstractValue;
use crate::binop::Binop;
use crate::ordered::{
    lemma_del_members, lemma_lookup_at, lemma_lookup_del, lemma_lookup_has_key, lemma_put_members,
    lookup, put,
};
use crate::rational::{lemma_int_wf, lemma_q_integer, lemma_q_tests, q_int, Q};
use crate::sat_unsat::SatUnsat;
use vstd::prelude::*;

verus! {

/// The expression mentions representatives only, but for `x`.
pub open spec fn over_representatives(m: PhiModel, l: Lin, x: Option<AbstractValue>) -> bool {
    forall|w: AbstractValue| #[trigger] mentions(l, w) ==> repr(m.eqs, w) == w || x == Some(w)
}

/// The equations speak of representatives only, but for `x`.
pub open spec fn canonical_but(m: PhiModel, x: Option<AbstractValue>) -> bool {
    forall|i: int|
        0 <= i < m.lin.len() ==> (repr(m.eqs, (#[trigger] m.lin[i]).0) == m.lin[i].0 || x == Some(
            m.lin[i].0,
        )) && over_representatives(m, m.lin[i].1, x)
}

/// The equations speak of representatives only.
pub open spec fn canonical(m: PhiModel) -> bool {
    canonical_but(m, None)
}

proof fn lemma_canonical_lookup(m: PhiModel, k: AbstractValue)
    requires
        canonical(m),
    ensures
        lookup(m.lin, k) matches Some(l) ==> repr(m.eqs, k) == k && over_representatives(m, l, None),
{
    lemma_lookup_has_key(m.lin, k);
}

proof fn lemma_normalize_reps(m: PhiModel, acc: Lin, s: Coeffs)
    requires
        phi_wf(m),
        canonical(m),
        lin_wf(acc),
        forall|i: int| 0 <= i < s.len() ==> (#[trigger] s[i]).1.wf(),
        over_representatives(m, acc, None),
        normalize_from(m, acc, s) is Some,
    ensures
        over_representatives(m, normalize_from(m, acc, s)->0, None),
    decreases s.len(),
{
    if s.len() > 0 {
        let r = repr(m.eqs, s[0].0);
        let l = match lookup(m.lin, r) {
            Some(l) => l,
            None => lin_var(r),
        };
        lemma_canonical_lookup(m, r);
        law_representative_is_smallest(m.eqs, s[0].0);
        let rho = |v: AbstractValue| 0real;
        lemma_eq_wf(m, r);
        lemma_lin_basics(q_int(0), r, rho);
        assert(s[0].1.wf());
        law_scale(l, s[0].1, rho);
        let t = lin_scale(l, s[0].1)->0;
        law_add(acc, t, rho);
        let a = lin_add(acc, t)->0;
        assert forall|w: AbstractValue| #[trigger] mentions(a, w) implies repr(m.eqs, w) == w by {
            lemma_add_mentions(acc, t, w);
            if mentions(t, w) {
                lemma_scale_mentions(l, s[0].1, w);
                if lookup(m.lin, r) is None {
                    lemma_lookup_has_key(lin_var(r).vars, w);
                    assert(lin_var(r).vars[0].0 == r);
                }
            }
        }
        assert forall|i: int| 0 <= i < s.drop_first().len() implies (
        #[trigger] s.drop_first()[i]).1.wf() by {
            assert(s.drop_first()[i] == s[i + 1]);
        }
        lemma_normalize_reps(m, a, s.drop_first());
    }
}

proof fn lemma_normal_reps(m: PhiModel, l: Lin)
    requires
        phi_wf(m),
        canonical(m),
        lin_wf(l),
        normalize(m, l) is Some,
    ensures
        over_representatives(m, normalize(m, l)->0, None),
{
    assert forall|w: AbstractValue| !(#[trigger] mentions(lin_const(l.c), w)) by {
        lemma_lookup_has_key(lin_const(l.c).vars, w);
    }
    lemma_lin_basics(l.c, AbstractValue(0), |v: AbstractValue| 0real);
    lemma_normalize_reps(m, lin_const(l.c), l.vars);
}

/// A union leaves every representative but the one that gives way.
proof fn lemma_union_canonical(m: PhiModel, v1: AbstractValue, v2: AbstractValue)
    requires
        phi_wf(m),
        canonical(m),
    ensures
        union_result(m.eqs, v1, v2) matches (e, Some((gone, keep))) ==> canonical_but(
            PhiModel { eqs: e, ..m },
            Some(gone),
        ) && repr(e, keep) == keep && repr(e, gone) == keep && gone != keep,
{
    if let (e, Some((gone, keep))) = union_result(m.eqs, v1, v2) {
        let n = PhiModel { eqs: e, ..m };
        law_representative_is_smallest(m.eqs, v1);
        law_representative_is_smallest(m.eqs, v2);
        assert forall|w: AbstractValue| repr(m.eqs, w) == w && w != gone implies #[trigger] repr(
            e,
            w,
        ) == w by {
            law_union_merges_two_classes(m.eqs, v1, v2, w);
        }
        law_union_merges_two_classes(m.eqs, v1, v2, gone);
        law_union_merges_two_classes(m.eqs, v1, v2, keep);
        assert forall|i: int| 0 <= i < n.lin.len() implies (repr(e, (#[trigger] n.lin[i]).0)
            == n.lin[i].0 || Some(gone) == Some(n.lin[i].0)) && over_representatives(
            n,
            n.lin[i].1,
            Some(gone),
        ) by {
            assert(repr(m.eqs, m.lin[i].0) == m.lin[i].0);
            assert(over_representatives(m, m.lin[i].1, None));
            assert forall|w: AbstractValue| #[trigger] mentions(n.lin[i].1, w) implies repr(e, w)
                == w || Some(gone) == Some(w) by {
                assert(repr(m.eqs, w) == w);
            }
        }
    }
}

proof fn lemma_without_canonical(m: PhiModel, x: AbstractValue, y: Option<AbstractValue>)
    requires
        canonical_but(m, y),
    ensures
        canonical_but(without_eq(m, x), y),
{
    let w = without_eq(m, x);
    assert forall|i: int| 0 <= i < w.lin.len() implies (repr(w.eqs, (#[trigger] w.lin[i]).0)
        == w.lin[i].0 || y == Some(w.lin[i].0)) && over_representatives(w, w.lin[i].1, y) by {
        lemma_del_members(m.lin, x, i);
        let j = choose|j: int| 0 <= j < m.lin.len() && #[trigger] m.lin[j] == w.lin[i];
        assert(over_representatives(m, m.lin[j].1, y));
        assert forall|v: AbstractValue| #[trigger] mentions(w.lin[i].1, v) implies repr(w.eqs, v)
            == v || y == Some(v) by {
            assert(mentions(m.lin[j].1, v));
        }
    }
}

/// Recording a solved equation between representatives keeps equations about
/// representatives.
pub proof fn law_add_canonical(m: PhiModel, x: AbstractValue, sol: Lin)
    requires
        phi_wf(m),
        lin_wf(sol),
        canonical(m),
        lin_as_var(sol) is None ==> solved_apart(x, sol, m.lin) && repr(m.eqs, x) == x
            && over_representatives(m, sol, None),
        run_add(m, x, sol) matches Some((_, SatUnsat::Sat(_))),
    ensures
        canonical((run_add(m, x, sol)->0).0),
    decreases room(m), 1int, 0int,
{
    let none: Seq<NewEq> = Seq::empty();
    let eqs = with_zero(none, x, lin_as_const(sol));
    let rho = |v: AbstractValue| 0real;
    match lin_as_var(sol) {
        Some(y) => {
            if let (e, Some((gone, keep))) = union_result(m.eqs, x, y) {
                let m1 = PhiModel { eqs: e, ..m };
                lemma_union(m, x, y, rho);
                lemma_union_canonical(m, x, y);
                law_propagate_canonical(m1, gone, keep, seq![NewEq::Equal(gone, keep)]);
            }
        },
        None => {
            let lin = substituted(m.lin, x, sol, Seq::empty())->0;
            let p = put::<AbstractValue, Lin>(lin, x, sol);
            let m1 = PhiModel { lin: p, ..m };
            let keys = mentioning(m.lin, x, Seq::empty());
            lemma_solved_in(m, x, sol, rho);
            lemma_substituted(m.lin, x, sol, rho);
            super::meaning::lemma_substituted_at(m.lin, x, sol, Seq::empty());
            assert forall|i: int| 0 <= i < p.len() implies (repr(m1.eqs, (#[trigger] p[i]).0)
                == p[i].0) && over_representatives(m1, p[i].1, None) by {
                lemma_put_members::<AbstractValue, Lin>(lin, x, sol, i);
                if p[i] != (x, sol) {
                    let j = choose|j: int| 0 <= j < lin.len() && #[trigger] lin[j] == p[i];
                    let none: Seq<(AbstractValue, Lin)> = Seq::empty();
                    assert(lin[none.len() + j].0 == m.lin[j].0);
                    assert(over_representatives(m, m.lin[j].1, None));
                    assert forall|w: AbstractValue| #[trigger] mentions(p[i].1, w) implies repr(
                        m1.eqs,
                        w,
                    ) == w by {
                        assert(mentions(lin[j].1, w));
                        assert(mentions(m.lin[j].1, w) || mentions(sol, w));
                    }
                } else {
                    assert forall|w: AbstractValue| #[trigger] mentions(p[i].1, w) implies repr(
                        m1.eqs,
                        w,
                    ) == w by {
                        assert(mentions(sol, w));
                    }
                }
            }
            assert(canonical(m1));
            law_updates_canonical(room(m), m1, keys, eqs);
            let m2 = (run_updates(room(m), m1, keys, eqs)->0).0;
            lemma_same_equations(m2, (run_add(m, x, sol)->0).0);
        },
    }
}

proof fn lemma_same_equations(m: PhiModel, n: PhiModel)
    requires
        canonical(m),
        n.lin == m.lin,
        n.eqs == m.eqs,
    ensures
        canonical(n),
{
    assert forall|i: int| 0 <= i < n.lin.len() implies repr(n.eqs, (#[trigger] n.lin[i]).0)
        == n.lin[i].0 && over_representatives(n, n.lin[i].1, None) by {
        assert(over_representatives(m, m.lin[i].1, None));
        assert forall|w: AbstractValue| #[trigger] mentions(n.lin[i].1, w) implies repr(n.eqs, w)
            == w by {
            assert(mentions(m.lin[i].1, w));
        }
    }
}

proof fn law_updates_canonical(
    r: int,
    m: PhiModel,
    keys: Seq<AbstractValue>,
    eqs: Seq<NewEq>,
)
    requires
        phi_wf(m),
        canonical(m),
        run_updates(r, m, keys, eqs) matches Some((_, SatUnsat::Sat(_))),
    ensures
        canonical((run_updates(r, m, keys, eqs)->0).0),
    decreases r, 0int, keys.len(),
{
    let rho = |v: AbstractValue| 0real;
    if keys.len() > 0 {
        let v = keys[0];
        let rest = keys.drop_first();
        lemma_eq_wf(m, v);
        match lookup(m.lin, v) {
            None => law_updates_canonical(r, m, rest, eqs),
            Some(l) => {
                let eqs1 = with_zero(eqs, v, lin_as_const(l));
                match lin_as_var(l) {
                    Some(y) => {
                        let m1 = without_eq(m, v);
                        lemma_without_eq(m, v, rho);
                        lemma_without_canonical(m, v, None);
                        match union_result(m1.eqs, v, y) {
                            (_, None) => law_updates_canonical(r, m1, rest, eqs1),
                            (e, Some((gone, keep))) => {
                                let m2 = PhiModel { eqs: e, ..m1 };
                                let first = seq![NewEq::Equal(gone, keep)];
                                lemma_union(m1, v, y, rho);
                                lemma_union_canonical(m1, v, y);
                                law_propagate_canonical(m2, gone, keep, first);
                                law_run_propagate(m2, gone, keep, first, rho);
                                let (m3, res) = run_propagate(m2, gone, keep, first)->0;
                                if let SatUnsat::Sat(more) = res {
                                    law_updates_canonical(r, m3, rest, eqs1 + more);
                                }
                            },
                        }
                    },
                    None => {
                        let (atoms, ok) = substitute_atoms(m.atoms, v, lin_term(l), Seq::empty())->0;
                        let m1 = PhiModel { atoms, ..m };
                        lemma_substitute_atoms(m.atoms, v, lin_term(l), Seq::empty(), rho);
                        lemma_same_equations(m, m1);
                        law_updates_canonical(r, m1, rest, eqs1);
                    },
                }
            },
        }
    }
}

/// Carrying a merge through leaves equations about representatives only.
pub proof fn law_propagate_canonical(
    m: PhiModel,
    gone: AbstractValue,
    keep: AbstractValue,
    eqs: Seq<NewEq>,
)
    requires
        phi_wf(m),
        canonical_but(m, Some(gone)),
        repr(m.eqs, keep) == keep,
        gone != keep,
        run_propagate(m, gone, keep, eqs) matches Some((_, SatUnsat::Sat(_))),
    ensures
        canonical((run_propagate(m, gone, keep, eqs)->0).0),
    decreases room(m), 3int, 0int,
{
    let rho = |v: AbstractValue| 0real;
    let n = (run_propagate(m, gone, keep, eqs)->0).0;
    let m1 = PhiModel { lin: renamed_lin(m, gone, keep)->0, ..m };
    lemma_renamed_in(m, gone, keep, rho);
    let d = displaced(m.lin, gone, keep);
    lemma_renamed_canonical(m, gone, keep);
    let start = match d {
        None => Some((m1, SatUnsat::Sat(eqs))),
        Some(k) => prepend(eqs, run_linear_eq(m1, keep, lookup(m.lin, k)->0)),
    };
    if let Some(k) = d {
        let l = lookup(m.lin, k)->0;
        lemma_eq_wf(m, k);
        law_linear_eq_canonical(m1, keep, l);
        law_run_linear_eq(m1, keep, l, rho);
    }
    let m2 = (start->0).0;
    let eqs1 = (start->0).1->Sat_0;
    let keys = mentioning(staying(m, gone, keep), gone, Seq::empty());
    law_updates_canonical(room(m), m2, keys, eqs1);
    let m3 = (run_updates(room(m), m2, keys, eqs1)->0).0;
    lemma_same_equations(m3, n);
}

proof fn lemma_renamed_canonical(m: PhiModel, gone: AbstractValue, keep: AbstractValue)
    requires
        phi_wf(m),
        canonical_but(m, Some(gone)),
        repr(m.eqs, keep) == keep,
        gone != keep,
        renamed_lin(m, gone, keep) is Some,
    ensures
        canonical(PhiModel { lin: renamed_lin(m, gone, keep)->0, ..m }),
{
    let rho = |v: AbstractValue| 0real;
    let n = PhiModel { lin: renamed_lin(m, gone, keep)->0, ..m };
    let d = displaced(m.lin, gone, keep);
    let w = match d {
        None => m,
        Some(k) => without_eq(m, k),
    };
    if let Some(k) = d {
        lemma_without_eq(m, k, rho);
        lemma_without_canonical(m, k, Some(gone));
    }
    lemma_lin_basics(q_int(0), keep, rho);
    lemma_substituted(w.lin, gone, lin_var(keep), rho);
    let none: Seq<(AbstractValue, Lin)> = Seq::empty();
    super::meaning::lemma_substituted_at(w.lin, gone, lin_var(keep), none);
    assert(lookup(w.lin, gone) is None) by {
        if let Some(k) = d {
            lemma_lookup_del::<AbstractValue, Lin>(m.lin, k, gone);
        }
    }
    assert forall|i: int| 0 <= i < n.lin.len() implies repr(n.eqs, (#[trigger] n.lin[i]).0)
        == n.lin[i].0 && over_representatives(n, n.lin[i].1, None) by {
        assert(n.lin[none.len() + i].0 == w.lin[i].0);
        lemma_lookup_at::<AbstractValue, Lin>(w.lin, i);
        assert(over_representatives(w, w.lin[i].1, Some(gone)));
        assert forall|v: AbstractValue| #[trigger] mentions(n.lin[i].1, v) implies repr(n.eqs, v)
            == v by {
            lemma_lookup_has_key(lin_var(keep).vars, v);
            assert(lin_var(keep).vars[0].0 == keep);
            if mentions(w.lin[i].1, v) && v != gone {
            } else {
                assert(mentions(lin_var(keep), v));
            }
        }
    }
}

/// Recording `v = l` leaves equations about representatives only.
pub proof fn law_linear_eq_canonical(m: PhiModel, v: AbstractValue, l: Lin)
    requires
        phi_wf(m),
        lin_wf(l),
        canonical(m),
        run_linear_eq(m, v, l) matches Some((_, SatUnsat::Sat(_))),
    ensures
        canonical((run_linear_eq(m, v, l)->0).0),
    decreases room(m), 2int, 0int,
{
    let rho = |v: AbstractValue| 0real;
    lemma_lin_basics(q_int(0), v, rho);
    lemma_normalize(m, l, rho);
    let n = normalize(m, l)->0;
    if lin_as_var(n) is Some {
        law_add_canonical(m, v, n);
    } else {
        lemma_solve_equal(m, lin_var(v), l, rho);
        if let SatUnsat::Sat(Some((x, s))) = solve_for(m, v, l)->0 {
            lemma_solved_reps(m, v, l);
            law_add_canonical(m, x, s);
        }
    }
}

proof fn lemma_solved_reps(m: PhiModel, v: AbstractValue, l: Lin)
    requires
        phi_wf(m),
        lin_wf(l),
        canonical(m),
        solve_for(m, v, l) is Some,
    ensures
        solve_for(m, v, l)->0 matches SatUnsat::Sat(Some((x, s))) ==> repr(m.eqs, x) == x
            && over_representatives(m, s, None),
{
    let rho = |v: AbstractValue| 0real;
    lemma_lin_basics(q_int(0), v, rho);
    let (a, b) = (normalize(m, lin_var(v))->0, normalize(m, l)->0);
    lemma_normalize(m, lin_var(v), rho);
    lemma_normalize(m, l, rho);
    lemma_normal_reps(m, lin_var(v));
    lemma_normal_reps(m, l);
    let d = lin_sub(a, b)->0;
    if let SatUnsat::Sat(Some((x, s))) = lin_solve(d)->0 {
        assert forall|w: AbstractValue| #[trigger] mentions(d, w) implies repr(m.eqs, w) == w by {
            lemma_sub_mentions(a, b, w);
            assert(mentions(a, w) || mentions(b, w));
        }
        assert forall|w: AbstractValue| #[trigger] mentions(s, w) implies repr(m.eqs, w) == w by {
            lemma_solve_mentions(d, w);
            assert(mentions(d, w));
        }
        lemma_solve_mentions(d, x);
        assert(mentions(d, x));
    }
}

/// The valuation that a choice of values for the variables without equations gives.
pub open spec fn solution(m: PhiModel, f: Valuation) -> Valuation {
    |v: AbstractValue|
        match lookup(m.lin, repr(m.eqs, v)) {
            Some(l) => lin_value(l, f),
            None => f(repr(m.eqs, v)),
        }
}

proof fn lemma_sum_same(s: Coeffs, f: Valuation, g: Valuation)
    requires
        forall|i: int| 0 <= i < s.len() ==> f((#[trigger] s[i]).0) == g(s[i].0),
    ensures
        sum(s, f) == sum(s, g),
    decreases s.len(),
{
    if s.len() > 0 {
        let t = s.drop_first();
        assert forall|i: int| 0 <= i < t.len() implies f((#[trigger] t[i]).0) == g(t[i].0) by {
            assert(t[i] == s[i + 1]);
        }
        lemma_sum_same(t, f, g);
        assert(f(s[0].0) == g(s[0].0));
    }
}

/// Values can be chosen freely for the variables without equations; the others follow.
pub proof fn law_solution(m: PhiModel, f: Valuation)
    requires
        phi_wf(m),
        canonical(m),
    ensures
        solves(m, solution(m, f)),
{
    let rho = solution(m, f);
    assert(classes_hold(m.eqs, rho)) by {
        assert forall|i: int| 0 <= i < m.eqs.len() implies rho((#[trigger] m.eqs[i]).0) == rho(
            m.eqs[i].1,
        ) by {
            lemma_lookup_at::<AbstractValue, AbstractValue>(m.eqs, i);
            law_representative_is_smallest(m.eqs, m.eqs[i].0);
        }
    }
    assert(equations_hold(m.lin, rho)) by {
        assert forall|i: int| 0 <= i < m.lin.len() implies rho((#[trigger] m.lin[i]).0)
            == lin_value(m.lin[i].1, rho) by {
            let l = m.lin[i].1;
            lemma_lookup_at::<AbstractValue, Lin>(m.lin, i);
            assert(over_representatives(m, l, None));
            assert(super::meaning::avoids(l, m.lin));
            assert(lin_wf(l));
            assert forall|j: int| 0 <= j < l.vars.len() implies rho((#[trigger] l.vars[j]).0) == f(
                l.vars[j].0,
            ) by {
                lemma_lookup_at::<AbstractValue, Q>(l.vars, j);
                assert(mentions(l, l.vars[j].0));
            }
            lemma_sum_same(l.vars, rho, f);
        }
    }
}

/// A value that the equations of a state determine is known.
pub proof fn law_determined_is_known(m: PhiModel, v: AbstractValue, c: i64)
    requires
        phi_wf(m),
        canonical(m),
        forall|rho: Valuation| #[trigger] solves(m, rho) ==> rho(v) == c as real,
    ensures
        known_const(m, v) == Some(q_int(c)),
{
    let r = repr(m.eqs, v);
    let zero: Valuation = |w: AbstractValue| 0real;
    let other: Valuation = |w: AbstractValue| c as real + 1real;
    law_solution(m, zero);
    law_solution(m, other);
    assert(solution(m, zero)(v) == c as real);
    assert(solution(m, other)(v) == c as real);
    assert(lookup(m.lin, r) is Some);
    let l = lookup(m.lin, r)->0;
    lemma_eq_wf(m, r);
    if l.vars.len() > 0 {
        let x = l.vars[0].0;
        let q = l.vars[0].1;
        let one: Valuation = |w: AbstractValue|
            if w == x {
                1real
            } else {
                0real
            };
        law_solution(m, one);
        assert(solution(m, one)(v) == c as real);
        lemma_sum_update(l.vars, x, zero, one);
        lemma_lookup_at::<AbstractValue, Q>(l.vars, 0);
        assert(q.wf() && q.numer != 0);
        lemma_q_tests(q);
        assert(coeff_value(l.vars, x) == q.value());
        assert(false);
    }
    assert(l.vars =~= Coeffs::empty());
    assert(lin_value(l, zero) == l.c.value());
    assert(l.c.value() == c as real);
    lemma_q_integer(l.c, c as int);
    let n = l.c.numer as real;
    assert(n / (1i64 as real) == n) by (nonlinear_arith);
    assert(l.c.numer == c);
}

proof fn lemma_interval_canonical(m: PhiModel, v: AbstractValue, i: CItv)
    requires
        phi_wf(m),
        canonical(m),
        run_interval(m, v, i) matches Some((_, true)),
    ensures
        canonical((run_interval(m, v, i)->0).0),
{
    let r = repr(m.eqs, v);
    let rho = |v: AbstractValue| 0real;
    let better = (refined_itv(m, v, i)->0)->0;
    let m1 = PhiModel { itvs: put::<AbstractValue, CItv>(m.itvs, r, better), ..m };
    lemma_same_equations(m, m1);
    if let Some(c) = better.singleton() {
        if known_const(m1, r) != Some(q_int(c)) {
            lemma_lin_basics(q_int(c), r, rho);
            lemma_int_wf(c);
            law_linear_eq_canonical(m1, r, lin_const(q_int(c)));
        }
    }
}

/// A value recorded to be a constant without a contradiction is known to be that
/// constant, and the equations stay about representatives.
pub proof fn law_constant_is_known(m: PhiModel, v: AbstractValue, c: i64)
    requires
        phi_wf(m),
        canonical(m),
        run_const_eq(m, v, c) matches Some((_, SatUnsat::Sat(_))),
    ensures
        known_const((run_const_eq(m, v, c)->0).0, v) == Some(q_int(c)),
        canonical((run_const_eq(m, v, c)->0).0),
{
    let rho0 = |v: AbstractValue| 0real;
    let r = repr(m.eqs, v);
    let i = CItv::Between(Bound::Int(c), Bound::Int(c));
    let l = lin_const(q_int(c));
    let n = (run_const_eq(m, v, c)->0).0;
    lemma_interval_canonical(m, r, i);
    law_run_interval(m, r, i, rho0);
    let m1 = (run_interval(m, r, i)->0).0;
    lemma_lin_basics(q_int(c), v, rho0);
    lemma_int_wf(c);
    law_linear_eq_canonical(m1, v, l);
    law_run_linear_eq(m1, v, l, rho0);
    assert forall|rho: Valuation| #[trigger] solves(n, rho) implies rho(v) == c as real by {
        law_const_eq_entails(m, v, c, rho);
    }
    law_determined_is_known(n, v, c);
}

/// Merging two classes leaves equations about representatives only, and a state that
/// knows nothing has none.
pub proof fn law_var_equal_canonical(m: PhiModel, v1: AbstractValue, v2: AbstractValue)
    requires
        phi_wf(m),
        canonical(m),
        run_var_equal(m, v1, v2) matches Some((_, SatUnsat::Sat(_))),
    ensures
        canonical((run_var_equal(m, v1, v2)->0).0),
        canonical(empty_phi()),
{
    if let (e, Some((gone, keep))) = union_result(m.eqs, v1, v2) {
        let rho = |v: AbstractValue| 0real;
        lemma_union(m, v1, v2, rho);
        lemma_union_canonical(m, v1, v2);
        law_propagate_canonical(
            PhiModel { eqs: e, ..m },
            gone,
            keep,
            seq![NewEq::Equal(gone, keep)],
        );
    }
}

/// Once a value was recorded as the result of an operation on two known integers, it is
/// known to be the integer that the operation gives: the product, the quotient, the
/// remainder, the shifted or combined bits, or one or zero for a comparison.
pub proof fn law_result_is_known(
    m: PhiModel,
    v: AbstractValue,
    op: Binop,
    x: Operand,
    y: Operand,
    a: i64,
    b: i64,
    c: int,
)
    requires
        phi_wf(m),
        canonical(m),
        operand_ints(m, x, y) == Some((a, b)),
        integer_result(op, a as int, b as int) == Some(c),
        lookup(m.values, term_key(m, op, x, y)) is None,
        equal_binop(m, v, op, x, y) matches Some((_, SatUnsat::Sat(_))),
    ensures
        in_i64(c),
        known_const((equal_binop(m, v, op, x, y)->0).0, v) == Some(q_int(c as i64)),
{
    let n = (equal_binop(m, v, op, x, y)->0).0;
    let m0 = binop_integer_result(m, v, op);
    law_folded(op, a, b);
    lemma_same_equations(m, m0);
    assert(operand_ints(m0, x, y) == Some((a, b)));
    assert(in_i64(c) && equal_binop_inner(m0, v, op, x, y) == run_const_eq(m0, v, c as i64));
    law_constant_is_known(m0, v, c as i64);
    let m1 = (run_const_eq(m0, v, c as i64)->0).0;
    assert(n == with_value(m1, v, op, x, y));
    assert(known_const(n, v) == known_const(m1, v));
}

/// An equation recorded without a contradiction has a solution together with all
/// equations that the state had: no contradiction among equations goes unnoticed.
pub proof fn law_equation_has_solution(m: PhiModel, v: AbstractValue, l: Lin) -> (rho: Valuation)
    requires
        phi_wf(m),
        lin_wf(l),
        canonical(m),
        run_linear_eq(m, v, l) matches Some((_, SatUnsat::Sat(_))),
    ensures
        solves(m, rho),
        rho(v) == lin_value(l, rho),
{
    let zero: Valuation = |w: AbstractValue| 0real;
    let n = (run_linear_eq(m, v, l)->0).0;
    law_linear_eq_canonical(m, v, l);
    law_run_linear_eq(m, v, l, zero);
    law_solution(n, zero);
    let rho = solution(n, zero);
    law_linear_eq_entails(m, v, l, rho);
    rho
}

/// Two values recorded to be equal without a contradiction can be equal together with
/// all equations that the state had.
pub proof fn law_equality_has_solution(
    m: PhiModel,
    v1: AbstractValue,
    v2: AbstractValue,
) -> (rho: Valuation)
    requires
        phi_wf(m),
        canonical(m),
        run_var_equal(m, v1, v2) matches Some((_, SatUnsat::Sat(_))),
    ensures
        solves(m, rho),
        rho(v1) == rho(v2),
{
    let zero: Valuation = |w: AbstractValue| 0real;
    let n = (run_var_equal(m, v1, v2)->0).0;
    law_var_equal_canonical(m, v1, v2);
    law_run_var_equal(m, v1, v2, zero);
    law_solution(n, zero);
    let rho = solution(n, zero);
    law_var_equal_entails(m, v1, v2, rho);
    rho
}

proof fn lemma_known_value(m: PhiModel, v: AbstractValue, rho: Valuation)
    requires
        phi_wf(m),
        solves(m, rho),
    ensures
        known_const(m, v) matches Some(q) ==> rho(v) == q.value(),
{
    let r = repr(m.eqs, v);
    lemma_repr_value(m, v, rho);
    lemma_eq_value(m, r, rho);
    lemma_eq_wf(m, r);
    if let Some(l) = lookup(m.lin, r) {
        lemma_as_const(l, rho);
    }
}

/// A value known to be one constant cannot be recorded to be another.
pub proof fn law_other_constant_is_refused(m: PhiModel, v: AbstractValue, a: i64, c: i64)
    requires
        phi_wf(m),
        canonical(m),
        known_const(m, v) == Some(q_int(a)),
        a != c,
        run_const_eq(m, v, c) is Some,
    ensures
        (run_const_eq(m, v, c)->0).1 is Unsat,
{
    if (run_const_eq(m, v, c)->0).1 is Sat {
        let zero: Valuation = |w: AbstractValue| 0real;
        let n = (run_const_eq(m, v, c)->0).0;
        let r = repr(m.eqs, v);
        let i = CItv::Between(Bound::Int(c), Bound::Int(c));
        law_constant_is_known(m, v, c);
        super::path_laws::law_run_const_eq(m, v, c, zero);
        law_solution(n, zero);
        let rho = solution(n, zero);
        law_const_eq_entails(m, v, c, rho);
        law_interval_entails(m, r, i, rho);
        law_run_interval(m, r, i, rho);
        let m1 = (run_interval(m, r, i)->0).0;
        lemma_lin_basics(q_int(c), v, rho);
        lemma_int_wf(c);
        law_linear_eq_entails(m1, v, lin_const(q_int(c)), rho);
        lemma_known_value(m, v, rho);
        let x = a as real;
        assert(x / (1i64 as real) == x) by (nonlinear_arith);
    }
}

/// Two values known to be different constants cannot be recorded to be equal.
pub proof fn law_different_constants_are_not_equal(
    m: PhiModel,
    v: AbstractValue,
    w: AbstractValue,
    a: i64,
    b: i64,
)
    requires
        phi_wf(m),
        canonical(m),
        known_const(m, v) == Some(q_int(a)),
        known_const(m, w) == Some(q_int(b)),
        a != b,
        run_var_equal(m, v, w) is Some,
    ensures
        (run_var_equal(m, v, w)->0).1 is Unsat,
{
    if (run_var_equal(m, v, w)->0).1 is Sat {
        let rho = law_equality_has_solution(m, v, w);
        lemma_known_value(m, v, rho);
        lemma_known_value(m, w, rho);
        let (x, y) = (a as real, b as real);
        assert(x / (1i64 as real) == x) by (nonlinear_arith);
        assert(y / (1i64 as real) == y) by (nonlinear_arith);
    }
}

} // verus!
