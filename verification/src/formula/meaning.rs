//! What a solver state says, and that solving never loses a solution.
//!
//! A state stands for the valuations that satisfy its facts. The laws here say
//! that recording a constraint keeps every valuation of the old state that
//! satisfies the constraint, that the equalities reported hold in all of them,
//! and that a contradiction is reported only where there is none.

use super::atom::{atom_holds, atom_subst, law_atom_subst, law_atom_trivial, Atom};
use super::lin_arith::{
    law_add, law_scale, law_solve, law_sub, law_subst, lemma_lin_basics, lin_add, lin_as_const,
    lin_as_var, lin_const, lin_scale, lin_solve, lin_sub, lin_subst, lin_value, lin_var, lin_wf,
    sum, Coeffs, Lin, Valuation,
};
use super::lin_laws::{
    lemma_add_mentions, lemma_same_keys, lemma_scale_mentions, lemma_solve_mentions,
    lemma_sub_mentions, lemma_subst_mentions, mentions,
};
use super::phi::NewEq;
use super::solver::{
    displaced, integers_consistent, known_const, lin_term, lin_term_from, mentioning,
    non_integer_clash, normalize, normalize_from, prepend, renamed_lin, room, run_add,
    run_linear_eq, run_propagate, run_updates, run_var_equal, solve_equal, solve_for, staying,
    substitute_atoms, substituted, term_plus, used_in_range, with_zero, without_eq, PhiModel,
};
use super::term::{lemma_term_of_q, term_of_q, term_value, Term};
use super::var_uf::{eqs_wf, redirected, repr, union_result};
use crate::abstract_value::AbstractValue;
use crate::ordered::{
    lemma_del_members, lemma_del_sorted, lemma_lookup_del, lemma_lookup_has_key, lemma_lookup_put,
    lemma_put_members, lemma_put_sorted, lemma_set_put_contains, lemma_set_put_sorted, lookup, put,
    set_put, set_sorted, sorted, OrdKey,
};
use crate::rational::{lemma_q_integer, lemma_q_tests, q_int, Q};
use crate::sat_unsat::SatUnsat;
use vstd::prelude::*;

verus! {

pub open spec fn whole(k: int) -> real {
    k as real
}

pub open spec fn is_whole(r: real) -> bool {
    exists|k: int| r == #[trigger] whole(k)
}

/// The valuation satisfies every equality, equation, comparison and integer
/// fact of the state.
pub open spec fn models(m: PhiModel, rho: Valuation) -> bool {
    &&& forall|i: int| 0 <= i < m.eqs.len() ==> rho((#[trigger] m.eqs[i]).0) == rho(m.eqs[i].1)
    &&& forall|i: int|
        0 <= i < m.lin.len() ==> rho((#[trigger] m.lin[i]).0) == lin_value(m.lin[i].1, rho)
    &&& forall|i: int| 0 <= i < m.atoms.len() ==> atom_holds(#[trigger] m.atoms[i], rho)
    &&& forall|i: int| 0 <= i < m.ints.len() ==> is_whole(rho(#[trigger] m.ints[i]))
}

/// Each value has the value of its representative.
pub open spec fn classes_hold(s: Seq<(AbstractValue, AbstractValue)>, rho: Valuation) -> bool {
    forall|i: int| 0 <= i < s.len() ==> rho((#[trigger] s[i]).0) == rho(s[i].1)
}

/// All equations hold.
pub open spec fn equations_hold(s: Seq<(AbstractValue, Lin)>, rho: Valuation) -> bool {
    forall|i: int| 0 <= i < s.len() ==> rho((#[trigger] s[i]).0) == lin_value(s[i].1, rho)
}

/// The valuation satisfies every equality and equation of the state.
pub open spec fn solves(m: PhiModel, rho: Valuation) -> bool {
    classes_hold(m.eqs, rho) && equations_hold(m.lin, rho)
}

/// The expression mentions no variable that has an equation among `s`.
pub open spec fn avoids(l: Lin, s: Seq<(AbstractValue, Lin)>) -> bool {
    forall|w: AbstractValue| #[trigger] mentions(l, w) ==> lookup(s, w) is None
}

/// The equations mention no variable on their right-hand sides that has an equation.
pub open spec fn apart(s: Seq<(AbstractValue, Lin)>) -> bool {
    forall|i: int| 0 <= i < s.len() ==> avoids((#[trigger] s[i]).1, s)
}

/// `x = l` is solved: neither side has a variable with an equation among `s`, and
/// `x` stands on one side only.
pub open spec fn solved_apart(x: AbstractValue, l: Lin, s: Seq<(AbstractValue, Lin)>) -> bool {
    lookup(s, x) is None && avoids(l, s) && !mentions(l, x)
}

/// The collections of a state are in order, its equations are in lowest terms, and
/// their domain and range mention distinct variables.
pub open spec fn phi_wf(m: PhiModel) -> bool {
    &&& eqs_wf(m.eqs)
    &&& sorted::<AbstractValue, Lin>(m.lin)
    &&& forall|i: int| 0 <= i < m.lin.len() ==> lin_wf((#[trigger] m.lin[i]).1)
    &&& apart(m.lin)
    &&& set_sorted::<Atom>(m.atoms)
}

pub open spec fn new_eq_holds(e: NewEq, rho: Valuation) -> bool {
    match e {
        NewEq::EqZero(v) => rho(v) == 0real,
        NewEq::Equal(a, b) => rho(a) == rho(b),
    }
}

pub open spec fn all_hold(eqs: Seq<NewEq>, rho: Valuation) -> bool {
    forall|i: int| 0 <= i < eqs.len() ==> new_eq_holds(#[trigger] eqs[i], rho)
}

/// The facts that solving equations never touches.
pub open spec fn same_frame(a: PhiModel, b: PhiModel) -> bool {
    a.terms == b.terms && a.itvs == b.itvs && a.ints == b.ints && a.apps == b.apps && a.values
        == b.values
}

/// An operation's outcome is faithful to a valuation of its input.
pub open spec fn faithful(res: SatUnsat<Seq<NewEq>>, m: PhiModel, rho: Valuation) -> bool {
    res matches SatUnsat::Sat(eqs) && models(m, rho) && all_hold(eqs, rho)
}

pub proof fn lemma_repr_value(m: PhiModel, v: AbstractValue, rho: Valuation)
    requires
        solves(m, rho),
    ensures
        rho(repr(m.eqs, v)) == rho(v),
{
    lemma_lookup_has_key(m.eqs, v);
}

pub proof fn lemma_eq_value(m: PhiModel, x: AbstractValue, rho: Valuation)
    requires
        solves(m, rho),
    ensures
        lookup(m.lin, x) matches Some(l) ==> rho(x) == lin_value(l, rho),
{
    lemma_lookup_has_key(m.lin, x);
}

pub proof fn lemma_eq_wf(m: PhiModel, x: AbstractValue)
    requires
        phi_wf(m),
    ensures
        lookup(m.lin, x) matches Some(l) ==> lin_wf(l) && avoids(l, m.lin),
{
    lemma_lookup_has_key(m.lin, x);
}

proof fn lemma_var_mentions(v: AbstractValue, w: AbstractValue)
    ensures
        mentions(lin_var(v), w) <==> w == v,
{
    lemma_lookup_has_key(lin_var(v).vars, w);
    assert(lin_var(v).vars[0].0 == v);
}

proof fn lemma_normalize_from(m: PhiModel, acc: Lin, s: Coeffs, rho: Valuation)
    requires
        phi_wf(m),
        lin_wf(acc),
        forall|i: int| 0 <= i < s.len() ==> (#[trigger] s[i]).1.wf(),
        normalize_from(m, acc, s) is Some,
        avoids(acc, m.lin),
    ensures
        lin_wf(normalize_from(m, acc, s)->0),
        avoids(normalize_from(m, acc, s)->0, m.lin),
        solves(m, rho) ==> lin_value(normalize_from(m, acc, s)->0, rho) == lin_value(acc, rho)
            + sum(s, rho),
    decreases s.len(),
{
    if s.len() > 0 {
        let r = repr(m.eqs, s[0].0);
        let l = match lookup(m.lin, r) {
            Some(l) => l,
            None => lin_var(r),
        };
        lemma_eq_wf(m, r);
        lemma_lin_basics(q_int(0), r, rho);
        assert(s[0].1.wf());
        law_scale(l, s[0].1, rho);
        let t = lin_scale(l, s[0].1)->0;
        law_add(acc, t, rho);
        let a = lin_add(acc, t)->0;
        assert forall|w: AbstractValue| #[trigger] mentions(a, w) implies lookup(m.lin, w) is None by {
            lemma_add_mentions(acc, t, w);
            if mentions(t, w) {
                lemma_scale_mentions(l, s[0].1, w);
                assert(mentions(l, w));
                if lookup(m.lin, r) is None {
                    lemma_var_mentions(r, w);
                }
            }
        }
        assert forall|i: int| 0 <= i < s.drop_first().len() implies (
        #[trigger] s.drop_first()[i]).1.wf() by {
            assert(s.drop_first()[i] == s[i + 1]);
        }
        lemma_normalize_from(m, a, s.drop_first(), rho);
        if solves(m, rho) {
            lemma_repr_value(m, s[0].0, rho);
            lemma_eq_value(m, r, rho);
        }
    }
}

pub proof fn lemma_normalize(m: PhiModel, l: Lin, rho: Valuation)
    requires
        phi_wf(m),
        lin_wf(l),
        normalize(m, l) is Some,
    ensures
        lin_wf(normalize(m, l)->0),
        avoids(normalize(m, l)->0, m.lin),
        solves(m, rho) ==> lin_value(normalize(m, l)->0, rho) == lin_value(l, rho),
{
    lemma_lin_basics(l.c, AbstractValue(0), rho);
    lemma_normalize_from(m, lin_const(l.c), l.vars, rho);
}

pub proof fn lemma_without_eq(m: PhiModel, x: AbstractValue, rho: Valuation)
    requires
        phi_wf(m),
    ensures
        phi_wf(without_eq(m, x)),
        models(m, rho) ==> models(without_eq(m, x), rho),
        same_frame(m, without_eq(m, x)),
{
    let w = without_eq(m, x);
    lemma_del_sorted::<AbstractValue, Lin>(m.lin, x);
    assert forall|i: int| 0 <= i < w.lin.len() implies lin_wf((#[trigger] w.lin[i]).1) && (models(
        m,
        rho,
    ) ==> rho(w.lin[i].0) == lin_value(w.lin[i].1, rho)) by {
        lemma_del_members(m.lin, x, i);
        let j = choose|j: int| 0 <= j < m.lin.len() && #[trigger] m.lin[j] == w.lin[i];
        assert(lin_wf(m.lin[j].1));
    }
    assert forall|i: int| 0 <= i < w.lin.len() implies avoids((#[trigger] w.lin[i]).1, w.lin) by {
        lemma_del_members(m.lin, x, i);
        let j = choose|j: int| 0 <= j < m.lin.len() && #[trigger] m.lin[j] == w.lin[i];
        assert(avoids(m.lin[j].1, m.lin));
        assert forall|v: AbstractValue| #[trigger] mentions(w.lin[i].1, v) implies lookup(
            w.lin,
            v,
        ) is None by {
            lemma_lookup_del::<AbstractValue, Lin>(m.lin, x, v);
        }
    }
}

/// Each equation after the substitution comes from the one before.
pub proof fn lemma_substituted_at(
    s: Seq<(AbstractValue, Lin)>,
    x: AbstractValue,
    r: Lin,
    acc: Seq<(AbstractValue, Lin)>,
)
    requires
        substituted(s, x, r, acc) is Some,
    ensures
        ({
            let t = substituted(s, x, r, acc)->0;
            &&& t.len() == acc.len() + s.len()
            &&& forall|i: int| 0 <= i < acc.len() ==> #[trigger] t[i] == acc[i]
            &&& forall|i: int|
                0 <= i < s.len() ==> (#[trigger] t[acc.len() + i]).0 == s[i].0 && lin_subst(
                    s[i].1,
                    x,
                    r,
                ) == Some(t[acc.len() + i].1)
        }),
    decreases s.len(),
{
    if s.len() > 0 {
        let u = lin_subst(s[0].1, x, r)->0;
        let next = acc.push((s[0].0, u));
        let rest = s.drop_first();
        lemma_substituted_at(rest, x, r, next);
        let t = substituted(s, x, r, acc)->0;
        assert forall|i: int| 0 <= i < acc.len() implies #[trigger] t[i] == acc[i] by {
            assert(t[i] == next[i]);
        }
        assert forall|i: int| 0 <= i < s.len() implies (#[trigger] t[acc.len() + i]).0 == s[i].0
            && lin_subst(s[i].1, x, r) == Some(t[acc.len() + i].1) by {
            if i == 0 {
                assert(t[acc.len() as int] == next[acc.len() as int]);
            } else {
                assert(rest[i - 1] == s[i]);
                assert(t[next.len() + (i - 1)].0 == rest[i - 1].0);
            }
        }
    }
}

/// The equations `s` after substituting `r` for `x`.
pub proof fn lemma_substituted(s: Seq<(AbstractValue, Lin)>, x: AbstractValue, r: Lin, rho: Valuation)
    requires
        sorted::<AbstractValue, Lin>(s),
        forall|i: int| 0 <= i < s.len() ==> lin_wf((#[trigger] s[i]).1),
        lin_wf(r),
        substituted(s, x, r, Seq::empty()) is Some,
    ensures
        ({
            let t = substituted(s, x, r, Seq::empty())->0;
            &&& sorted::<AbstractValue, Lin>(t)
            &&& forall|w: AbstractValue| #[trigger] lookup(t, w) is Some <==> lookup(s, w) is Some
            &&& forall|i: int| 0 <= i < t.len() ==> lin_wf((#[trigger] t[i]).1)
            &&& forall|i: int|
                0 <= i < t.len() ==> forall|w: AbstractValue| #[trigger]
                    mentions((#[trigger] t[i]).1, w) ==> (mentions(s[i].1, w) && w != x) || (
                    mentions(s[i].1, x) && mentions(r, w))
            &&& t.len() == s.len()
            &&& rho(x) == lin_value(r, rho) && (forall|i: int|
                0 <= i < s.len() ==> rho((#[trigger] s[i]).0) == lin_value(s[i].1, rho)) ==> (
            forall|i: int| 0 <= i < t.len() ==> rho((#[trigger] t[i]).0) == lin_value(t[i].1, rho))
        }),
{
    let none: Seq<(AbstractValue, Lin)> = Seq::empty();
    let t = substituted(s, x, r, none)->0;
    lemma_substituted_at(s, x, r, none);
    assert forall|i: int| 0 <= i < s.len() implies (#[trigger] t[i]).0 == s[i].0 && lin_subst(
        s[i].1,
        x,
        r,
    ) == Some(t[i].1) by {
        assert(t[none.len() + i].0 == s[i].0);
    }
    assert forall|i: int, j: int| 0 <= i < j < t.len() implies <AbstractValue as OrdKey>::lt(
        (#[trigger] t[i]).0,
        (#[trigger] t[j]).0,
    ) by {
        assert(<AbstractValue as OrdKey>::lt(s[i].0, s[j].0));
    }
    assert forall|w: AbstractValue| #[trigger] lookup(t, w) is Some <==> lookup(s, w) is Some by {
        lemma_same_keys(t, s, w);
    }
    assert forall|i: int| 0 <= i < t.len() implies lin_wf((#[trigger] t[i]).1) && (rho(x)
        == lin_value(r, rho) ==> lin_value(t[i].1, rho) == lin_value(s[i].1, rho)) by {
        assert(lin_wf(s[i].1));
        assert(lin_subst(s[i].1, x, r) == Some(t[i].1));
        law_subst(s[i].1, x, r, rho);
    }
    assert forall|i: int| 0 <= i < t.len() implies forall|w: AbstractValue| #[trigger]
        mentions((#[trigger] t[i]).1, w) ==> (mentions(s[i].1, w) && w != x) || (mentions(
            s[i].1,
            x,
        ) && mentions(r, w)) by {
        assert forall|w: AbstractValue| #[trigger] mentions(t[i].1, w) implies (mentions(s[i].1, w)
            && w != x) || (mentions(s[i].1, x) && mentions(r, w)) by {
            assert(lin_wf(s[i].1));
            lemma_subst_mentions(s[i].1, x, r, w);
        }
    }
    if rho(x) == lin_value(r, rho) && (forall|i: int|
        0 <= i < s.len() ==> rho((#[trigger] s[i]).0) == lin_value(s[i].1, rho)) {
        assert forall|i: int| 0 <= i < t.len() implies rho((#[trigger] t[i]).0) == lin_value(
            t[i].1,
            rho,
        ) by {
            assert(rho(s[i].0) == lin_value(s[i].1, rho));
        }
    }
}

/// The state in which the solved equation `x = sol` has been substituted into the
/// others and added to them.
pub proof fn lemma_solved_in(m: PhiModel, x: AbstractValue, sol: Lin, rho: Valuation)
    requires
        phi_wf(m),
        lin_wf(sol),
        solved_apart(x, sol, m.lin),
        substituted(m.lin, x, sol, Seq::empty()) is Some,
    ensures
        ({
            let n = PhiModel {
                lin: put::<AbstractValue, Lin>(
                    substituted(m.lin, x, sol, Seq::empty())->0,
                    x,
                    sol,
                ),
                ..m
            };
            phi_wf(n) && (models(m, rho) && rho(x) == lin_value(sol, rho) ==> models(n, rho))
        }),
{
    let t = substituted(m.lin, x, sol, Seq::empty())->0;
    let p = put::<AbstractValue, Lin>(t, x, sol);
    let given = models(m, rho) && rho(x) == lin_value(sol, rho);
    lemma_substituted(m.lin, x, sol, rho);
    lemma_put_sorted::<AbstractValue, Lin>(t, x, sol);
    assert forall|i: int| 0 <= i < p.len() implies lin_wf((#[trigger] p[i]).1) && avoids(p[i].1, p)
        && (given ==> rho(p[i].0) == lin_value(p[i].1, rho)) by {
        lemma_put_members::<AbstractValue, Lin>(t, x, sol, i);
        if p[i] == (x, sol) {
            assert forall|w: AbstractValue| #[trigger] mentions(sol, w) implies lookup(p, w) is None by {
                lemma_lookup_put::<AbstractValue, Lin>(t, x, sol, w);
            }
        } else {
            let j = choose|j: int| 0 <= j < t.len() && #[trigger] t[j] == p[i];
            assert(lin_wf(t[j].1));
            assert(avoids(m.lin[j].1, m.lin));
            assert forall|w: AbstractValue| #[trigger] mentions(p[i].1, w) implies lookup(
                p,
                w,
            ) is None by {
                assert(mentions(t[j].1, w));
                lemma_lookup_put::<AbstractValue, Lin>(t, x, sol, w);
            }
        }
    }
}

/// The state in which `gone` has been renamed to `keep` in the equations, the one
/// that cannot stay being taken out.
pub proof fn lemma_renamed_in(m: PhiModel, gone: AbstractValue, keep: AbstractValue, rho: Valuation)
    requires
        phi_wf(m),
        renamed_lin(m, gone, keep) is Some,
    ensures
        ({
            let n = PhiModel { lin: renamed_lin(m, gone, keep)->0, ..m };
            phi_wf(n) && (models(m, rho) && rho(gone) == rho(keep) ==> models(n, rho))
        }),
{
    let d = displaced(m.lin, gone, keep);
    let k = match d {
        Some(k) => k,
        None => gone,
    };
    lemma_without_eq(m, k, rho);
    let m1 = match d {
        Some(k) => without_eq(m, k),
        None => m,
    };
    let r = lin_var(keep);
    lemma_lin_basics(q_int(0), keep, rho);
    lemma_substituted(m1.lin, gone, r, rho);
    let t = substituted(m1.lin, gone, r, Seq::empty())->0;
    assert forall|i: int| 0 <= i < t.len() implies avoids((#[trigger] t[i]).1, t) by {
        assert(avoids(m1.lin[i].1, m1.lin));
        assert forall|w: AbstractValue| #[trigger] mentions(t[i].1, w) implies lookup(t, w) is None by {
            if mentions(m1.lin[i].1, gone) {
                lemma_var_mentions(keep, w);
                lemma_mentioned_before(m, gone, keep, i);
            }
        }
    }
}

/// Where an equation that stays mentions `gone`, `keep` has no equation that stays.
proof fn lemma_mentioned_before(m: PhiModel, gone: AbstractValue, keep: AbstractValue, i: int)
    requires
        phi_wf(m),
        ({
            let lin = staying(m, gone, keep);
            0 <= i < lin.len() && mentions(lin[i].1, gone)
        }),
    ensures
        lookup(staying(m, gone, keep), keep) is None,
{
    let lin = staying(m, gone, keep);
    let j = if displaced(m.lin, gone, keep) is Some {
        lemma_del_members(m.lin, displaced(m.lin, gone, keep)->0, i);
        lemma_lookup_del::<AbstractValue, Lin>(m.lin, displaced(m.lin, gone, keep)->0, keep);
        choose|j: int| 0 <= j < m.lin.len() && #[trigger] m.lin[j] == lin[i]
    } else {
        i
    };
    assert(avoids(m.lin[j].1, m.lin));
    assert(mentions(m.lin[j].1, gone));
    assert(used_in_range(m.lin, gone));
}

pub proof fn lemma_substitute_atoms(
    s: Seq<Atom>,
    x: AbstractValue,
    t: Term,
    acc: Seq<Atom>,
    rho: Valuation,
)
    requires
        set_sorted::<Atom>(acc),
        substitute_atoms(s, x, t, acc) is Some,
    ensures
        set_sorted::<Atom>((substitute_atoms(s, x, t, acc)->0).0),
        rho(x) == term_value(t, rho) && (forall|i: int|
            0 <= i < s.len() ==> atom_holds(#[trigger] s[i], rho)) && (forall|i: int|
            0 <= i < acc.len() ==> atom_holds(#[trigger] acc[i], rho)) ==> (substitute_atoms(
            s,
            x,
            t,
            acc,
        )->0).1 && (forall|i: int|
            0 <= i < (substitute_atoms(s, x, t, acc)->0).0.len() ==> atom_holds(
                #[trigger] (substitute_atoms(s, x, t, acc)->0).0[i],
                rho,
            )),
    decreases s.len(),
{
    if s.len() > 0 {
        let a = atom_subst(s[0], x, t);
        let r = s.drop_first();
        law_atom_trivial(a, rho);
        if rho(x) == term_value(t, rho) {
            law_atom_subst(s[0], x, t, rho);
        }
        if forall|i: int| 0 <= i < s.len() ==> atom_holds(#[trigger] s[i], rho) {
            assert(atom_holds(s[0], rho));
            assert forall|i: int| 0 <= i < r.len() implies atom_holds(#[trigger] r[i], rho) by {
                assert(r[i] == s[i + 1]);
            }
        }
        match super::atom::atom_trivial(a) {
            Some(Some(true)) => lemma_substitute_atoms(r, x, t, acc, rho),
            Some(None) => {
                let p = set_put::<Atom>(acc, a);
                lemma_set_put_sorted::<Atom>(acc, a);
                if atom_holds(a, rho) && (forall|i: int|
                    0 <= i < acc.len() ==> atom_holds(#[trigger] acc[i], rho)) {
                    assert forall|i: int| 0 <= i < p.len() implies atom_holds(
                        #[trigger] p[i],
                        rho,
                    ) by {
                        lemma_set_put_contains::<Atom>(acc, a, p[i]);
                        assert(p.contains(p[i]));
                    }
                }
                lemma_substitute_atoms(r, x, t, p, rho);
            },
            _ => {},
        }
    }
}

proof fn lemma_integers_consistent(m: PhiModel, s: Seq<AbstractValue>, rho: Valuation)
    requires
        phi_wf(m),
        models(m, rho),
        forall|i: int| 0 <= i < s.len() ==> is_whole(rho(#[trigger] s[i])),
        integers_consistent(m, s) is Some,
    ensures
        integers_consistent(m, s) == Some(true),
    decreases s.len(),
{
    if s.len() > 0 {
        let t = s.drop_first();
        assert forall|i: int| 0 <= i < t.len() implies is_whole(rho(#[trigger] t[i])) by {
            assert(t[i] == s[i + 1]);
        }
        if integers_consistent(m, t) is Some {
            lemma_integers_consistent(m, t, rho);
        }
        let r = repr(m.eqs, s[0]);
        if let Some(l) = lookup(m.lin, r) {
            if let Some(n) = normalize(m, l) {
                lemma_eq_wf(m, r);
                lemma_normalize(m, l, rho);
                lemma_repr_value(m, s[0], rho);
                lemma_eq_value(m, r, rho);
                if let Some(q) = lin_as_const(n) {
                    lemma_lin_basics(q, r, rho);
                    assert(n.vars =~= Coeffs::empty());
                    assert(is_whole(rho(s[0])));
                    let k = choose|k: int| rho(s[0]) == #[trigger] whole(k);
                    lemma_q_integer(q, k);
                }
            }
        }
    }
}

pub open spec fn opt_term_value(t: Option<Term>, rho: Valuation) -> real {
    match t {
        None => 0real,
        Some(t) => term_value(t, rho),
    }
}

proof fn lemma_lin_term_from(s: Coeffs, acc: Option<Term>, rho: Valuation)
    requires
        forall|i: int| 0 <= i < s.len() ==> (#[trigger] s[i]).1.wf(),
    ensures
        opt_term_value(lin_term_from(s, acc), rho) == opt_term_value(acc, rho) + sum(s, rho),
    decreases s.len(),
{
    if s.len() > 0 {
        let q = s[0].1;
        let v = s[0].0;
        let t = if q == q_int(1) {
            Term::Var(v)
        } else {
            Term::Mult(Box::new(term_of_q(q)), Box::new(Term::Var(v)))
        };
        assert(q.wf());
        lemma_term_of_q(q, rho);
        lemma_q_tests(q);
        let r = rho(v);
        assert(1real * r == r) by (nonlinear_arith);
        if q != q_int(1) {
            assert(term_value(*Box::new(Term::Var(v)), rho) == r);
            assert(term_value(*Box::new(term_of_q(q)), rho) == q.value());
        }
        assert(term_value(t, rho) == q.value() * r);
        let next = term_plus(acc, t);
        assert(term_value(next, rho) == opt_term_value(acc, rho) + term_value(t, rho)) by {
            if let Some(a) = acc {
                assert(term_value(*Box::new(a), rho) == term_value(a, rho));
                assert(term_value(*Box::new(t), rho) == term_value(t, rho));
            }
        }
        assert forall|i: int| 0 <= i < s.drop_first().len() implies (
        #[trigger] s.drop_first()[i]).1.wf() by {
            assert(s.drop_first()[i] == s[i + 1]);
        }
        lemma_lin_term_from(s.drop_first(), Some(next), rho);
    }
}

/// A linear expression and its term have the same value.
pub proof fn law_lin_term(l: Lin, rho: Valuation)
    requires
        lin_wf(l),
    ensures
        term_value(lin_term(l), rho) == lin_value(l, rho),
{
    lemma_lin_term_from(l.vars, None, rho);
    lemma_q_tests(l.c);
    lemma_term_of_q(l.c, rho);
}

pub proof fn lemma_union(m: PhiModel, v1: AbstractValue, v2: AbstractValue, rho: Valuation)
    requires
        phi_wf(m),
    ensures
        phi_wf(PhiModel { eqs: union_result(m.eqs, v1, v2).0, ..m }),
        models(m, rho) && rho(v1) == rho(v2) ==> models(
            PhiModel { eqs: union_result(m.eqs, v1, v2).0, ..m },
            rho,
        ) && (union_result(m.eqs, v1, v2).1 matches Some((gone, keep)) ==> rho(gone) == rho(keep)),
{
    super::var_uf::lemma_union_wf(m.eqs, v1, v2);
    let (e, pair) = union_result(m.eqs, v1, v2);
    if models(m, rho) && rho(v1) == rho(v2) {
        lemma_repr_value(m, v1, rho);
        lemma_repr_value(m, v2, rho);
        if let Some((gone, keep)) = pair {
            let c = redirected(m.eqs, gone, keep);
            assert forall|i: int| 0 <= i < e.len() implies rho((#[trigger] e[i]).0) == rho(
                e[i].1,
            ) by {
                lemma_put_members::<AbstractValue, AbstractValue>(c, gone, keep, i);
                if e[i] != (gone, keep) {
                    let j = choose|j: int| 0 <= j < c.len() && #[trigger] c[j] == e[i];
                    assert(rho(m.eqs[j].0) == rho(m.eqs[j].1));
                }
            }
        }
    }
}

proof fn lemma_all_hold_append(a: Seq<NewEq>, b: Seq<NewEq>, rho: Valuation)
    requires
        all_hold(a, rho),
        all_hold(b, rho),
    ensures
        all_hold(a + b, rho),
{
    assert forall|i: int| 0 <= i < (a + b).len() implies new_eq_holds(
        #[trigger] (a + b)[i],
        rho,
    ) by {
        if i < a.len() {
            assert((a + b)[i] == a[i]);
        } else {
            assert((a + b)[i] == b[i - a.len()]);
        }
    }
}

pub proof fn lemma_solve_equal(m: PhiModel, a: Lin, b: Lin, rho: Valuation)
    requires
        phi_wf(m),
        lin_wf(a),
        lin_wf(b),
        solve_equal(m, a, b) is Some,
    ensures
        solve_equal(m, a, b)->0 matches SatUnsat::Sat(Some((x, p))) ==> lin_wf(p) && solved_apart(
            x,
            p,
            m.lin,
        ),
        solves(m, rho) && lin_value(a, rho) == lin_value(b, rho) ==> match solve_equal(m, a, b)->0 {
            SatUnsat::Unsat => false,
            SatUnsat::Sat(None) => true,
            SatUnsat::Sat(Some((x, p))) => rho(x) == lin_value(p, rho),
        },
{
    lemma_normalize(m, a, rho);
    lemma_normalize(m, b, rho);
    let (x, y) = (normalize(m, a)->0, normalize(m, b)->0);
    law_sub(x, y, rho);
    let d = lin_sub(x, y)->0;
    law_solve(d, rho);
    assert(avoids(d, m.lin)) by {
        assert forall|w: AbstractValue| #[trigger] mentions(d, w) implies lookup(m.lin, w) is None by {
            lemma_sub_mentions(x, y, w);
        }
    }
    if let SatUnsat::Sat(Some((v, p))) = lin_solve(d)->0 {
        lemma_solve_mentions(d, v);
        assert forall|w: AbstractValue| #[trigger] mentions(p, w) implies lookup(m.lin, w) is None by {
            lemma_solve_mentions(d, w);
        }
    }
}

pub proof fn lemma_with_zero(eqs: Seq<NewEq>, x: AbstractValue, c: Option<Q>, rho: Valuation)
    requires
        all_hold(eqs, rho),
        c matches Some(q) ==> q.wf() && rho(x) == q.value(),
    ensures
        all_hold(with_zero(eqs, x, c), rho),
{
    if let Some(q) = c {
        lemma_q_tests(q);
    }
}

pub proof fn lemma_as_const(l: Lin, rho: Valuation)
    requires
        lin_wf(l),
    ensures
        lin_as_const(l) matches Some(q) ==> q.wf() && lin_value(l, rho) == q.value(),
{
}

pub proof fn lemma_as_var(l: Lin, rho: Valuation)
    requires
        lin_wf(l),
    ensures
        lin_as_var(l) matches Some(y) ==> lin_value(l, rho) == rho(y),
{
    if let Some(y) = lin_as_var(l) {
        assert(l.vars[0].1.wf());
        lemma_q_tests(l.vars[0].1);
        lemma_q_tests(l.c);
        assert(l.vars.drop_first() =~= Coeffs::empty());
        assert(sum(l.vars.drop_first(), rho) == 0real);
        let r = rho(y);
        assert(1real * r == r) by (nonlinear_arith);
    }
}

proof fn lemma_no_clash(m: PhiModel, x: AbstractValue, l: Lin, rho: Valuation)
    requires
        lin_wf(l),
        models(m, rho),
        rho(x) == lin_value(l, rho),
    ensures
        !non_integer_clash(m, x, l),
{
    if non_integer_clash(m, x, l) {
        let q = lin_as_const(l)->0;
        lemma_as_const(l, rho);
        lemma_repr_value(m, x, rho);
        let r = repr(m.eqs, x);
        let i = choose|i: int| 0 <= i < m.ints.len() && m.ints[i] == r;
        assert(is_whole(rho(m.ints[i])));
        let k = choose|k: int| rho(r) == #[trigger] whole(k);
        lemma_q_integer(q, k);
    }
}

/// Recording a solved equation keeps every valuation that satisfies it.
pub proof fn law_run_add(m: PhiModel, x: AbstractValue, sol: Lin, rho: Valuation)
    requires
        phi_wf(m),
        lin_wf(sol),
        lin_as_var(sol) is None ==> solved_apart(x, sol, m.lin),
        run_add(m, x, sol) is Some,
    ensures
        phi_wf((run_add(m, x, sol)->0).0),
        same_frame(m, (run_add(m, x, sol)->0).0),
        models(m, rho) && rho(x) == lin_value(sol, rho) ==> faithful(
            (run_add(m, x, sol)->0).1,
            (run_add(m, x, sol)->0).0,
            rho,
        ),
    decreases room(m), 1int, 0int,
{
    let given = models(m, rho) && rho(x) == lin_value(sol, rho);
    let none: Seq<NewEq> = Seq::empty();
    lemma_as_const(sol, rho);
    lemma_as_var(sol, rho);
    if given {
        lemma_no_clash(m, x, sol, rho);
        lemma_with_zero(none, x, lin_as_const(sol), rho);
    }
    if !non_integer_clash(m, x, sol) {
        let eqs = with_zero(none, x, lin_as_const(sol));
        match lin_as_var(sol) {
            Some(y) => {
                lemma_union(m, x, y, rho);
                if let (e, Some((gone, keep))) = union_result(m.eqs, x, y) {
                    let m1 = PhiModel { eqs: e, ..m };
                    let first = seq![NewEq::Equal(gone, keep)];
                    law_run_propagate(m1, gone, keep, first, rho);
                    if given {
                        if let SatUnsat::Sat(more) = (run_propagate(m1, gone, keep, first)->0).1 {
                            lemma_all_hold_append(eqs, more, rho);
                        }
                    }
                }
            },
            None => {
                lemma_solved_in(m, x, sol, rho);
                let lin = substituted(m.lin, x, sol, Seq::empty())->0;
                let m1 = PhiModel { lin: put::<AbstractValue, Lin>(lin, x, sol), ..m };
                let keys = mentioning(m.lin, x, Seq::empty());
                law_run_updates(room(m), m1, keys, eqs, rho);
                let (m2, res) = run_updates(room(m), m1, keys, eqs)->0;
                if res is Sat {
                    law_lin_term(sol, rho);
                    lemma_substitute_atoms(m2.atoms, x, lin_term(sol), Seq::empty(), rho);
                }
            },
        }
    }
}

pub proof fn law_run_updates(
    r: int,
    m: PhiModel,
    keys: Seq<AbstractValue>,
    eqs: Seq<NewEq>,
    rho: Valuation,
)
    requires
        phi_wf(m),
        run_updates(r, m, keys, eqs) is Some,
    ensures
        phi_wf((run_updates(r, m, keys, eqs)->0).0),
        same_frame(m, (run_updates(r, m, keys, eqs)->0).0),
        models(m, rho) && all_hold(eqs, rho) ==> faithful(
            (run_updates(r, m, keys, eqs)->0).1,
            (run_updates(r, m, keys, eqs)->0).0,
            rho,
        ),
    decreases r, 0int, keys.len(),
{
    let given = models(m, rho) && all_hold(eqs, rho);
    if keys.len() > 0 {
        let v = keys[0];
        let rest = keys.drop_first();
        lemma_eq_wf(m, v);
        match lookup(m.lin, v) {
            None => law_run_updates(r, m, rest, eqs, rho),
            Some(l) => {
                let eqs1 = with_zero(eqs, v, lin_as_const(l));
                lemma_as_const(l, rho);
                lemma_as_var(l, rho);
                if given {
                    lemma_eq_value(m, v, rho);
                    lemma_no_clash(m, v, l, rho);
                    lemma_with_zero(eqs, v, lin_as_const(l), rho);
                }
                if !non_integer_clash(m, v, l) {
                    match lin_as_var(l) {
                        Some(y) => {
                            let m1 = without_eq(m, v);
                            lemma_without_eq(m, v, rho);
                            lemma_union(m1, v, y, rho);
                            match union_result(m1.eqs, v, y) {
                                (_, None) => law_run_updates(r, m1, rest, eqs1, rho),
                                (e, Some((gone, keep))) => {
                                    let m2 = PhiModel { eqs: e, ..m1 };
                                    let first = seq![NewEq::Equal(gone, keep)];
                                    law_run_propagate(m2, gone, keep, first, rho);
                                    let (m3, res) = run_propagate(m2, gone, keep, first)->0;
                                    if let SatUnsat::Sat(more) = res {
                                        if given {
                                            lemma_all_hold_append(eqs1, more, rho);
                                        }
                                        law_run_updates(r, m3, rest, eqs1 + more, rho);
                                    }
                                },
                            }
                        },
                        None => {
                            law_lin_term(l, rho);
                            lemma_substitute_atoms(m.atoms, v, lin_term(l), Seq::empty(), rho);
                            let (atoms, ok) = substitute_atoms(
                                m.atoms,
                                v,
                                lin_term(l),
                                Seq::empty(),
                            )->0;
                            if ok {
                                law_run_updates(r, PhiModel { atoms, ..m }, rest, eqs1, rho);
                            }
                        },
                    }
                }
            },
        }
    }
}

/// Carrying a merge through the state keeps every valuation in which the
/// merged values agree.
pub proof fn law_run_propagate(
    m: PhiModel,
    gone: AbstractValue,
    keep: AbstractValue,
    eqs: Seq<NewEq>,
    rho: Valuation,
)
    requires
        phi_wf(m),
        run_propagate(m, gone, keep, eqs) is Some,
    ensures
        phi_wf((run_propagate(m, gone, keep, eqs)->0).0),
        same_frame(m, (run_propagate(m, gone, keep, eqs)->0).0),
        models(m, rho) && rho(gone) == rho(keep) && all_hold(eqs, rho) ==> faithful(
            (run_propagate(m, gone, keep, eqs)->0).1,
            (run_propagate(m, gone, keep, eqs)->0).0,
            rho,
        ),
    decreases room(m), 3int, 0int,
{
    let given = models(m, rho) && rho(gone) == rho(keep) && all_hold(eqs, rho);
    lemma_renamed_in(m, gone, keep, rho);
    let m1 = PhiModel { lin: renamed_lin(m, gone, keep)->0, ..m };
    let start = match displaced(m.lin, gone, keep) {
        None => Some((m1, SatUnsat::Sat(eqs))),
        Some(k) => prepend(eqs, run_linear_eq(m1, keep, lookup(m.lin, k)->0)),
    };
    if let Some(k) = displaced(m.lin, gone, keep) {
        let l = lookup(m.lin, k)->0;
        lemma_eq_wf(m, k);
        if given {
            lemma_eq_value(m, k, rho);
        }
        law_run_linear_eq(m1, keep, l, rho);
        if let SatUnsat::Sat(more) = (run_linear_eq(m1, keep, l)->0).1 {
            if given {
                lemma_all_hold_append(eqs, more, rho);
            }
        }
    }
    let (m2, res2) = start->0;
    assert(phi_wf(m2) && same_frame(m, m2));
    assert(given ==> faithful(res2, m2, rho));
    if let SatUnsat::Sat(eqs1) = res2 {
        let keys = mentioning(staying(m, gone, keep), gone, Seq::empty());
        law_run_updates(room(m), m2, keys, eqs1, rho);
        let (m3, res3) = run_updates(room(m), m2, keys, eqs1)->0;
        if let SatUnsat::Sat(eqs2) = res3 {
            if given {
                lemma_integers_consistent(m3, m3.ints, rho);
            }
            if integers_consistent(m3, m3.ints) == Some(true) {
                lemma_substitute_atoms(m3.atoms, gone, Term::Var(keep), Seq::empty(), rho);
                let r = repr(m3.eqs, keep);
                lemma_eq_wf(m3, r);
                if let Some(l) = lookup(m3.lin, r) {
                    lemma_as_const(l, rho);
                }
                if given {
                    lemma_repr_value(m3, keep, rho);
                    lemma_eq_value(m3, r, rho);
                    lemma_with_zero(eqs2, keep, known_const(m3, keep), rho);
                }
            }
        }
    }
}

/// Recording `v = l` keeps every valuation that satisfies it, and reports a
/// contradiction only when there is none.
pub proof fn law_run_linear_eq(m: PhiModel, v: AbstractValue, l: Lin, rho: Valuation)
    requires
        phi_wf(m),
        lin_wf(l),
        run_linear_eq(m, v, l) is Some,
    ensures
        phi_wf((run_linear_eq(m, v, l)->0).0),
        same_frame(m, (run_linear_eq(m, v, l)->0).0),
        models(m, rho) && rho(v) == lin_value(l, rho) ==> faithful(
            (run_linear_eq(m, v, l)->0).1,
            (run_linear_eq(m, v, l)->0).0,
            rho,
        ),
    decreases room(m), 2int, 0int,
{
    lemma_lin_basics(q_int(0), v, rho);
    lemma_normalize(m, l, rho);
    let n = normalize(m, l)->0;
    if lin_as_var(n) is Some {
        law_run_add(m, v, n, rho);
    } else {
        lemma_solve_equal(m, lin_var(v), l, rho);
        lemma_as_const(n, rho);
        if models(m, rho) && rho(v) == lin_value(l, rho) {
            lemma_repr_value(m, v, rho);
            lemma_with_zero(Seq::empty(), repr(m.eqs, v), lin_as_const(n), rho);
        }
        if let SatUnsat::Sat(Some((x, s))) = solve_for(m, v, l)->0 {
            law_run_add(m, x, s, rho);
        }
    }
}

/// Recording `v1 = v2` keeps every valuation that satisfies it, and reports a
/// contradiction only when there is none.
pub proof fn law_run_var_equal(
    m: PhiModel,
    v1: AbstractValue,
    v2: AbstractValue,
    rho: Valuation,
)
    requires
        phi_wf(m),
        run_var_equal(m, v1, v2) is Some,
    ensures
        phi_wf((run_var_equal(m, v1, v2)->0).0),
        same_frame(m, (run_var_equal(m, v1, v2)->0).0),
        models(m, rho) && rho(v1) == rho(v2) ==> faithful(
            (run_var_equal(m, v1, v2)->0).1,
            (run_var_equal(m, v1, v2)->0).0,
            rho,
        ),
{
    lemma_union(m, v1, v2, rho);
    if let (e, Some((gone, keep))) = union_result(m.eqs, v1, v2) {
        law_run_propagate(
            PhiModel { eqs: e, ..m },
            gone,
            keep,
            seq![NewEq::Equal(gone, keep)],
            rho,
        );
    }
}

} // verus!
