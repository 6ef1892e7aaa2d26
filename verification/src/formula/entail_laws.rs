//! Solving forgets nothing: what was recorded holds wherever the state holds.
//!
//! Where `meaning` shows that recording a constraint keeps every valuation that
//! satisfies it, the laws here show that it keeps no others. A state that an
//! operation leaves behind without a contradiction satisfies the constraint and
//! everything that the state before said.

use super::Operand;
use super::atom::{atom_holds, atom_subst, atom_trivial, law_atom_subst, law_atom_trivial, Atom};
use super::citv::{AbductionResult, Bound, CItv};
use super::formula_model::{
    check_ranges, equal_operands, itv_or_all, less, not_equal, operand_itv, operand_term,
    order_atom, prune_equal, prune_order, refine_operand, FormulaModel,
};
use super::lin_arith::{
    law_solve, law_sub, law_subst, lemma_lin_basics, lin_as_const, lin_as_var, lin_const, lin_sub,
    lin_subst, lin_value, lin_var, lin_wf, Lin, Valuation,
};
use super::meaning::{
    classes_hold, equations_hold, is_whole, law_lin_term, law_run_linear_eq, law_run_propagate,
    law_run_updates, lemma_as_var, lemma_eq_value, lemma_eq_wf, lemma_normalize, lemma_renamed_in,
    lemma_repr_value, lemma_solve_equal, lemma_solved_in, lemma_substituted_at, lemma_union,
    lemma_without_eq, models, phi_wf, solved_apart, solves,
};
use super::path_laws::{law_resolved_atom, operand_value};
use super::phi::NewEq;
use super::resolve::resolved_atom;
use super::solver::{
    displaced, known_const, lin_term, mentioning, normalize, prepend, refined_itv, renamed_lin,
    room, run_add, run_atom, run_const_eq, run_interval, run_linear_eq, run_propagate, run_updates,
    run_var_equal, solve_equal, solve_for, staying, substitute_atoms, substituted, with_zero,
    without_eq, PhiModel,
};
use super::term::{term_value, Term};
use super::var_uf::{law_union_merges_two_classes, repr, union_result};
use crate::abstract_value::AbstractValue;
use crate::binop::Binop;
use crate::ordered::{
    lemma_lookup_at, lemma_lookup_del, lemma_lookup_has_key, lemma_lookup_put,
    lemma_set_put_contains, lookup, put, set_put,
};
use crate::rational::{lemma_int_wf, q_int};
use crate::sat_unsat::SatUnsat;
use vstd::prelude::*;

verus! {

/// All comparisons of the sequence hold.
pub open spec fn atoms_hold(s: Seq<Atom>, rho: Valuation) -> bool {
    forall|i: int| 0 <= i < s.len() ==> atom_holds(#[trigger] s[i], rho)
}

/// All values of the sequence are integers.
pub open spec fn integers_hold(s: Seq<AbstractValue>, rho: Valuation) -> bool {
    forall|i: int| 0 <= i < s.len() ==> is_whole(rho(#[trigger] s[i]))
}

/// Whatever satisfies the equations of the state after an operation satisfies
/// those of the state before, and likewise for its comparisons.
pub open spec fn kept(m: PhiModel, n: PhiModel, rho: Valuation) -> bool {
    solves(n, rho) ==> solves(m, rho) && (atoms_hold(n.atoms, rho) ==> atoms_hold(m.atoms, rho))
}

/// Whatever satisfies the state after an operation satisfies the state before.
pub open spec fn entails(n: PhiModel, m: PhiModel, rho: Valuation) -> bool {
    models(n, rho) ==> models(m, rho)
}

/// A state is satisfied where its equations, comparisons and integer facts are.
pub proof fn lemma_models_parts(m: PhiModel, rho: Valuation)
    ensures
        models(m, rho) <==> solves(m, rho) && atoms_hold(m.atoms, rho) && integers_hold(
            m.ints,
            rho,
        ),
{
    if models(m, rho) {
        assert(solves(m, rho));
        assert(atoms_hold(m.atoms, rho));
        assert(integers_hold(m.ints, rho));
    }
    if solves(m, rho) && atoms_hold(m.atoms, rho) && integers_hold(m.ints, rho) {
        assert(models(m, rho));
    }
}

pub proof fn lemma_kept(m: PhiModel, n: PhiModel, rho: Valuation)
    requires
        kept(m, n, rho),
        m.ints == n.ints,
    ensures
        entails(n, m, rho),
{
    if models(n, rho) {
        assert(solves(n, rho));
        assert(atoms_hold(n.atoms, rho));
    }
}

proof fn lemma_bound(s: Seq<(AbstractValue, Lin)>, x: AbstractValue, rho: Valuation)
    requires
        equations_hold(s, rho),
    ensures
        lookup(s, x) matches Some(l) ==> rho(x) == lin_value(l, rho),
{
    lemma_lookup_has_key(s, x);
}

proof fn lemma_atoms_back(s: Seq<Atom>, x: AbstractValue, t: Term, acc: Seq<Atom>, rho: Valuation)
    requires
        rho(x) == term_value(t, rho),
        substitute_atoms(s, x, t, acc) matches Some((a, ok)) && ok && atoms_hold(a, rho),
    ensures
        atoms_hold(s, rho),
        atoms_hold(acc, rho),
    decreases s.len(),
{
    if s.len() > 0 {
        let a = atom_subst(s[0], x, t);
        let r = s.drop_first();
        law_atom_trivial(a, rho);
        law_atom_subst(s[0], x, t, rho);
        if atom_trivial(a) == Some(Some(true)) {
            lemma_atoms_back(r, x, t, acc, rho);
        } else {
            let p = set_put::<Atom>(acc, a);
            lemma_atoms_back(r, x, t, p, rho);
            lemma_set_put_contains::<Atom>(acc, a, a);
            assert forall|i: int| 0 <= i < acc.len() implies atom_holds(#[trigger] acc[i], rho) by {
                lemma_set_put_contains::<Atom>(acc, a, acc[i]);
                assert(acc.contains(acc[i]));
                let j = choose|j: int| 0 <= j < p.len() && p[j] == acc[i];
                assert(atom_holds(p[j], rho));
            }
            let j = choose|j: int| 0 <= j < p.len() && p[j] == a;
            assert(atom_holds(p[j], rho));
        }
        assert forall|i: int| 0 <= i < s.len() implies atom_holds(#[trigger] s[i], rho) by {
            if i > 0 {
                assert(s[i] == r[i - 1]);
            }
        }
    }
}

/// Equations that hold after a substitution by a term of the same value held
/// before.
proof fn lemma_substituted_back(
    s: Seq<(AbstractValue, Lin)>,
    x: AbstractValue,
    r: Lin,
    rho: Valuation,
)
    requires
        forall|i: int| 0 <= i < s.len() ==> lin_wf((#[trigger] s[i]).1),
        lin_wf(r),
        rho(x) == lin_value(r, rho),
        substituted(s, x, r, Seq::empty()) matches Some(t) && equations_hold(t, rho),
    ensures
        equations_hold(s, rho),
{
    let none: Seq<(AbstractValue, Lin)> = Seq::empty();
    let t = substituted(s, x, r, none)->0;
    lemma_substituted_at(s, x, r, none);
    assert forall|i: int| 0 <= i < s.len() implies rho((#[trigger] s[i]).0) == lin_value(
        s[i].1,
        rho,
    ) by {
        assert(t[none.len() + i].0 == s[i].0 && lin_subst(s[i].1, x, r) == Some(
            t[none.len() + i].1,
        ));
        assert(rho(t[i].0) == lin_value(t[i].1, rho));
        assert(lin_wf(s[i].1));
        law_subst(s[i].1, x, r, rho);
    }
}

proof fn lemma_solved_back(m: PhiModel, x: AbstractValue, sol: Lin, rho: Valuation)
    requires
        phi_wf(m),
        lin_wf(sol),
        solved_apart(x, sol, m.lin),
        substituted(m.lin, x, sol, Seq::empty()) is Some,
        ({
            let lin = substituted(m.lin, x, sol, Seq::empty())->0;
            equations_hold(put::<AbstractValue, Lin>(lin, x, sol), rho)
        }),
    ensures
        equations_hold(m.lin, rho),
        rho(x) == lin_value(sol, rho),
{
    let t = substituted(m.lin, x, sol, Seq::empty())->0;
    let p = put::<AbstractValue, Lin>(t, x, sol);
    super::meaning::lemma_substituted(m.lin, x, sol, rho);
    lemma_lookup_put::<AbstractValue, Lin>(t, x, sol, x);
    lemma_bound(p, x, rho);
    assert forall|i: int| 0 <= i < t.len() implies rho((#[trigger] t[i]).0) == lin_value(
        t[i].1,
        rho,
    ) by {
        lemma_lookup_at::<AbstractValue, Lin>(t, i);
        lemma_lookup_put::<AbstractValue, Lin>(t, x, sol, t[i].0);
        lemma_bound(p, t[i].0, rho);
        assert(lookup(t, x) is None);
    }
    lemma_substituted_back(m.lin, x, sol, rho);
}

/// Taking out the equation of `x` loses no more than that equation.
proof fn lemma_without_back(m: PhiModel, x: AbstractValue, rho: Valuation)
    requires
        phi_wf(m),
        equations_hold(without_eq(m, x).lin, rho),
        lookup(m.lin, x) matches Some(l) ==> rho(x) == lin_value(l, rho),
    ensures
        equations_hold(m.lin, rho),
{
    let w = without_eq(m, x);
    assert forall|i: int| 0 <= i < m.lin.len() implies rho((#[trigger] m.lin[i]).0) == lin_value(
        m.lin[i].1,
        rho,
    ) by {
        let k = m.lin[i].0;
        lemma_lookup_at::<AbstractValue, Lin>(m.lin, i);
        lemma_lookup_del::<AbstractValue, Lin>(m.lin, x, k);
        if k != x {
            lemma_bound(w.lin, k, rho);
        }
    }
}

proof fn lemma_union_back(m: PhiModel, v1: AbstractValue, v2: AbstractValue, rho: Valuation)
    requires
        phi_wf(m),
        classes_hold(union_result(m.eqs, v1, v2).0, rho),
    ensures
        classes_hold(m.eqs, rho),
        rho(v1) == rho(v2),
{
    lemma_union_same(m, v1, v2, v1, v2, rho);
    assert forall|i: int| 0 <= i < m.eqs.len() implies rho((#[trigger] m.eqs[i]).0) == rho(
        m.eqs[i].1,
    ) by {
        let (a, b) = m.eqs[i];
        lemma_lookup_at::<AbstractValue, AbstractValue>(m.eqs, i);
        assert(lookup(m.eqs, b) is None);
        lemma_union_same(m, v1, v2, a, b, rho);
    }
}

proof fn lemma_union_same(
    m: PhiModel,
    v1: AbstractValue,
    v2: AbstractValue,
    a: AbstractValue,
    b: AbstractValue,
    rho: Valuation,
)
    requires
        phi_wf(m),
        classes_hold(union_result(m.eqs, v1, v2).0, rho),
        repr(m.eqs, a) == repr(m.eqs, b) || (a == v1 && b == v2),
    ensures
        rho(a) == rho(b),
{
    let e = union_result(m.eqs, v1, v2).0;
    law_union_merges_two_classes(m.eqs, v1, v2, a);
    law_union_merges_two_classes(m.eqs, v1, v2, b);
    lemma_lookup_has_key(e, a);
    lemma_lookup_has_key(e, b);
}

/// A union that merges leaves both values with one representative.
proof fn lemma_union_pair(m: PhiModel, v1: AbstractValue, v2: AbstractValue)
    requires
        phi_wf(m),
    ensures
        union_result(m.eqs, v1, v2) matches (e, Some((gone, keep))) ==> repr(e, gone) == repr(
            e,
            keep,
        ),
{
    if let (e, Some((gone, keep))) = union_result(m.eqs, v1, v2) {
        super::var_uf::law_representative_is_smallest(m.eqs, v1);
        super::var_uf::law_representative_is_smallest(m.eqs, v2);
        law_union_merges_two_classes(m.eqs, v1, v2, gone);
        law_union_merges_two_classes(m.eqs, v1, v2, keep);
    }
}

/// Where a solved equation was recorded without a contradiction, whatever
/// satisfies the state satisfies the equation and the state before.
pub proof fn law_add_entails(m: PhiModel, x: AbstractValue, sol: Lin, rho: Valuation)
    requires
        phi_wf(m),
        lin_wf(sol),
        lin_as_var(sol) is None ==> solved_apart(x, sol, m.lin),
        run_add(m, x, sol) matches Some((_, SatUnsat::Sat(_))),
    ensures
        kept(m, (run_add(m, x, sol)->0).0, rho),
        solves((run_add(m, x, sol)->0).0, rho) ==> rho(x) == lin_value(sol, rho),
    decreases room(m), 1int, 0int,
{
    let none: Seq<NewEq> = Seq::empty();
    let eqs = with_zero(none, x, lin_as_const(sol));
    let n = (run_add(m, x, sol)->0).0;
    lemma_as_var(sol, rho);
    match lin_as_var(sol) {
        Some(y) => match union_result(m.eqs, x, y) {
            (_, None) => {
                if solves(m, rho) {
                    lemma_repr_value(m, x, rho);
                    lemma_repr_value(m, y, rho);
                }
            },
            (e, Some((gone, keep))) => {
                let m1 = PhiModel { eqs: e, ..m };
                lemma_union(m, x, y, rho);
                lemma_union_pair(m, x, y);
                law_propagate_entails(m1, gone, keep, seq![NewEq::Equal(gone, keep)], rho);
                if solves(n, rho) {
                    lemma_union_back(m, x, y, rho);
                }
            },
        },
        None => {
            let lin = substituted(m.lin, x, sol, Seq::empty())->0;
            let m1 = PhiModel { lin: put::<AbstractValue, Lin>(lin, x, sol), ..m };
            let keys = mentioning(m.lin, x, Seq::empty());
            lemma_solved_in(m, x, sol, rho);
            law_run_updates(room(m), m1, keys, eqs, rho);
            law_updates_entail(room(m), m1, keys, eqs, rho);
            let m2 = (run_updates(room(m), m1, keys, eqs)->0).0;
            if solves(n, rho) {
                assert(solves(m2, rho));
                lemma_solved_back(m, x, sol, rho);
                law_lin_term(sol, rho);
                if atoms_hold(n.atoms, rho) {
                    lemma_atoms_back(m2.atoms, x, lin_term(sol), Seq::empty(), rho);
                }
            }
        },
    }
}

proof fn law_updates_entail(
    r: int,
    m: PhiModel,
    keys: Seq<AbstractValue>,
    eqs: Seq<NewEq>,
    rho: Valuation,
)
    requires
        phi_wf(m),
        run_updates(r, m, keys, eqs) matches Some((_, SatUnsat::Sat(_))),
    ensures
        kept(m, (run_updates(r, m, keys, eqs)->0).0, rho),
    decreases r, 0int, keys.len(),
{
    if keys.len() > 0 {
        let v = keys[0];
        let rest = keys.drop_first();
        let n = (run_updates(r, m, keys, eqs)->0).0;
        lemma_eq_wf(m, v);
        match lookup(m.lin, v) {
            None => law_updates_entail(r, m, rest, eqs, rho),
            Some(l) => {
                let eqs1 = with_zero(eqs, v, lin_as_const(l));
                lemma_as_var(l, rho);
                match lin_as_var(l) {
                    Some(y) => {
                        let m1 = without_eq(m, v);
                        lemma_without_eq(m, v, rho);
                        match union_result(m1.eqs, v, y) {
                            (_, None) => {
                                law_updates_entail(r, m1, rest, eqs1, rho);
                                if solves(n, rho) {
                                    lemma_repr_value(m1, v, rho);
                                    lemma_repr_value(m1, y, rho);
                                    lemma_without_back(m, v, rho);
                                }
                            },
                            (e, Some((gone, keep))) => {
                                let m2 = PhiModel { eqs: e, ..m1 };
                                let first = seq![NewEq::Equal(gone, keep)];
                                lemma_union(m1, v, y, rho);
                                lemma_union_pair(m1, v, y);
                                law_propagate_entails(m2, gone, keep, first, rho);
                                law_run_propagate(m2, gone, keep, first, rho);
                                let (m3, res) = run_propagate(m2, gone, keep, first)->0;
                                if let SatUnsat::Sat(more) = res {
                                    law_updates_entail(r, m3, rest, eqs1 + more, rho);
                                }
                                if solves(n, rho) {
                                    lemma_union_back(m1, v, y, rho);
                                    lemma_without_back(m, v, rho);
                                }
                            },
                        }
                    },
                    None => {
                        let (atoms, ok) = substitute_atoms(m.atoms, v, lin_term(l), Seq::empty())->0;
                        let m1 = PhiModel { atoms, ..m };
                        super::meaning::lemma_substitute_atoms(
                            m.atoms,
                            v,
                            lin_term(l),
                            Seq::empty(),
                            rho,
                        );
                        law_updates_entail(r, m1, rest, eqs1, rho);
                        if solves(n, rho) {
                            assert(solves(m, rho));
                            lemma_eq_value(m, v, rho);
                            law_lin_term(l, rho);
                            if atoms_hold(n.atoms, rho) {
                                lemma_atoms_back(m.atoms, v, lin_term(l), Seq::empty(), rho);
                            }
                        }
                    },
                }
            },
        }
    }
}

/// Where a merge was carried through the state without a contradiction, whatever
/// satisfies the state satisfies the state before.
pub proof fn law_propagate_entails(
    m: PhiModel,
    gone: AbstractValue,
    keep: AbstractValue,
    eqs: Seq<NewEq>,
    rho: Valuation,
)
    requires
        phi_wf(m),
        repr(m.eqs, gone) == repr(m.eqs, keep),
        run_propagate(m, gone, keep, eqs) matches Some((_, SatUnsat::Sat(_))),
    ensures
        kept(m, (run_propagate(m, gone, keep, eqs)->0).0, rho),
    decreases room(m), 3int, 0int,
{
    let n = (run_propagate(m, gone, keep, eqs)->0).0;
    let m1 = PhiModel { lin: renamed_lin(m, gone, keep)->0, ..m };
    lemma_renamed_in(m, gone, keep, rho);
    let start = match displaced(m.lin, gone, keep) {
        None => Some((m1, SatUnsat::Sat(eqs))),
        Some(k) => prepend(eqs, run_linear_eq(m1, keep, lookup(m.lin, k)->0)),
    };
    let d = displaced(m.lin, gone, keep);
    if let Some(k) = d {
        let l = lookup(m.lin, k)->0;
        lemma_eq_wf(m, k);
        law_linear_eq_entails(m1, keep, l, rho);
        law_run_linear_eq(m1, keep, l, rho);
    }
    let m2 = (start->0).0;
    let eqs1 = (start->0).1->Sat_0;
    let keys = mentioning(staying(m, gone, keep), gone, Seq::empty());
    law_updates_entail(room(m), m2, keys, eqs1, rho);
    law_run_updates(room(m), m2, keys, eqs1, rho);
    let m3 = (run_updates(room(m), m2, keys, eqs1)->0).0;
    if solves(n, rho) {
        assert(solves(m3, rho) && solves(m2, rho) && solves(m1, rho));
        lemma_repr_value(m1, gone, rho);
        lemma_repr_value(m1, keep, rho);
        lemma_lin_basics(q_int(0), keep, rho);
        let w = match d {
            None => m,
            Some(k) => without_eq(m, k),
        };
        if let Some(k) = d {
            lemma_without_eq(m, k, rho);
        }
        lemma_substituted_back(w.lin, gone, lin_var(keep), rho);
        assert(solves(w, rho));
        if let Some(k) = d {
            lemma_without_back(m, k, rho);
        }
        if atoms_hold(n.atoms, rho) {
            lemma_atoms_back(m3.atoms, gone, Term::Var(keep), Seq::empty(), rho);
        }
    }
}

/// Where `v = l` was recorded without a contradiction, whatever satisfies the
/// state satisfies `v = l` and the state before.
pub proof fn law_linear_eq_entails(m: PhiModel, v: AbstractValue, l: Lin, rho: Valuation)
    requires
        phi_wf(m),
        lin_wf(l),
        run_linear_eq(m, v, l) matches Some((_, SatUnsat::Sat(_))),
    ensures
        kept(m, (run_linear_eq(m, v, l)->0).0, rho),
        solves((run_linear_eq(m, v, l)->0).0, rho) ==> rho(v) == lin_value(l, rho),
    decreases room(m), 2int, 0int,
{
    lemma_lin_basics(q_int(0), v, rho);
    lemma_normalize(m, l, rho);
    let n = normalize(m, l)->0;
    if lin_as_var(n) is Some {
        law_add_entails(m, v, n, rho);
    } else {
        lemma_solve_equal(m, lin_var(v), l, rho);
        if let SatUnsat::Sat(Some((x, s))) = solve_for(m, v, l)->0 {
            law_add_entails(m, x, s, rho);
        }
        if solves((run_linear_eq(m, v, l)->0).0, rho) {
            lemma_solved_means(m, lin_var(v), l, rho);
        }
    }
}

/// What an equation was solved to implies the equation.
proof fn lemma_solved_means(m: PhiModel, a: Lin, b: Lin, rho: Valuation)
    requires
        phi_wf(m),
        lin_wf(a),
        lin_wf(b),
        solves(m, rho),
        match solve_equal(m, a, b) {
            Some(SatUnsat::Sat(None)) => true,
            Some(SatUnsat::Sat(Some((x, p)))) => rho(x) == lin_value(p, rho),
            _ => false,
        },
    ensures
        lin_value(a, rho) == lin_value(b, rho),
{
    lemma_normalize(m, a, rho);
    lemma_normalize(m, b, rho);
    let (x, y) = (normalize(m, a)->0, normalize(m, b)->0);
    law_sub(x, y, rho);
    law_solve(lin_sub(x, y)->0, rho);
}

/// Where `v1 = v2` was recorded without a contradiction, whatever satisfies the
/// state satisfies `v1 = v2` and the state before.
pub proof fn law_var_equal_entails(
    m: PhiModel,
    v1: AbstractValue,
    v2: AbstractValue,
    rho: Valuation,
)
    requires
        phi_wf(m),
        run_var_equal(m, v1, v2) matches Some((_, SatUnsat::Sat(_))),
    ensures
        kept(m, (run_var_equal(m, v1, v2)->0).0, rho),
        entails((run_var_equal(m, v1, v2)->0).0, m, rho),
        solves((run_var_equal(m, v1, v2)->0).0, rho) ==> rho(v1) == rho(v2),
{
    let n = (run_var_equal(m, v1, v2)->0).0;
    match union_result(m.eqs, v1, v2) {
        (_, None) => {
            if solves(m, rho) {
                lemma_repr_value(m, v1, rho);
                lemma_repr_value(m, v2, rho);
            }
        },
        (e, Some((gone, keep))) => {
            let m1 = PhiModel { eqs: e, ..m };
            lemma_union(m, v1, v2, rho);
            lemma_union_pair(m, v1, v2);
            law_propagate_entails(m1, gone, keep, seq![NewEq::Equal(gone, keep)], rho);
            if solves(n, rho) {
                lemma_union_back(m, v1, v2, rho);
            }
        },
    }
    super::meaning::law_run_var_equal(m, v1, v2, rho);
    lemma_kept(m, n, rho);
}

/// Where a value was put into a range without a contradiction, whatever satisfies
/// the state satisfies the state before.
pub proof fn law_interval_entails(m: PhiModel, v: AbstractValue, i: CItv, rho: Valuation)
    requires
        phi_wf(m),
        run_interval(m, v, i) matches Some((_, true)),
    ensures
        entails((run_interval(m, v, i)->0).0, m, rho),
        solves((run_interval(m, v, i)->0).0, rho) ==> solves(m, rho),
        (run_interval(m, v, i)->0).0.terms == m.terms,
{
    let r = repr(m.eqs, v);
    let better = (refined_itv(m, v, i)->0)->0;
    let m1 = PhiModel { itvs: put::<AbstractValue, CItv>(m.itvs, r, better), ..m };
    if let Some(c) = better.singleton() {
        if known_const(m1, r) != Some(q_int(c)) {
            lemma_lin_basics(q_int(c), r, rho);
            lemma_int_wf(c);
            law_linear_eq_entails(m1, r, lin_const(q_int(c)), rho);
            law_run_linear_eq(m1, r, lin_const(q_int(c)), rho);
            lemma_kept(m1, (run_linear_eq(m1, r, lin_const(q_int(c)))->0).0, rho);
        }
    }
}

/// Where `v = c` was recorded without a contradiction, whatever satisfies the
/// equations of the state gives `v` the value `c`, and satisfies what held before.
pub proof fn law_const_eq_entails(m: PhiModel, v: AbstractValue, c: i64, rho: Valuation)
    requires
        phi_wf(m),
        run_const_eq(m, v, c) matches Some((_, SatUnsat::Sat(_))),
    ensures
        entails((run_const_eq(m, v, c)->0).0, m, rho),
        solves((run_const_eq(m, v, c)->0).0, rho) ==> rho(v) == c as real,
        (run_const_eq(m, v, c)->0).0.terms == m.terms,
{
    let i = CItv::Between(Bound::Int(c), Bound::Int(c));
    let r = repr(m.eqs, v);
    let l = lin_const(q_int(c));
    law_interval_entails(m, r, i, rho);
    super::path_laws::law_run_interval(m, r, i, rho);
    let m1 = (run_interval(m, r, i)->0).0;
    lemma_lin_basics(q_int(c), v, rho);
    lemma_int_wf(c);
    law_linear_eq_entails(m1, v, l, rho);
    law_run_linear_eq(m1, v, l, rho);
    lemma_kept(m1, (run_linear_eq(m1, v, l)->0).0, rho);
    let x = c as real;
    assert(x / (1i64 as real) == x) by (nonlinear_arith);
}

/// Where a comparison was recorded without a contradiction, whatever satisfies
/// the state satisfies the comparison and the state before.
pub proof fn law_atom_entails(m: PhiModel, a: Atom, rho: Valuation)
    requires
        phi_wf(m),
        run_atom(m, a) matches Some((_, SatUnsat::Sat(_))),
    ensures
        entails((run_atom(m, a)->0).0, m, rho),
        models((run_atom(m, a)->0).0, rho) ==> atom_holds(a, rho),
        (run_atom(m, a)->0).0.terms == m.terms,
{
    let n = (run_atom(m, a)->0).0;
    let r = resolved_atom(m, a)->0;
    if models(n, rho) {
        if atom_trivial(r) == Some(None::<bool>) {
            lemma_set_put_contains::<Atom>(m.atoms, r, r);
            let j = choose|j: int| 0 <= j < n.atoms.len() && n.atoms[j] == r;
            assert(atom_holds(n.atoms[j], rho));
            assert forall|i: int| 0 <= i < m.atoms.len() implies atom_holds(
                #[trigger] m.atoms[i],
                rho,
            ) by {
                lemma_set_put_contains::<Atom>(m.atoms, r, m.atoms[i]);
                assert(m.atoms.contains(m.atoms[i]));
                let j = choose|j: int| 0 <= j < n.atoms.len() && n.atoms[j] == m.atoms[i];
                assert(atom_holds(n.atoms[j], rho));
            }
            assert(n.eqs == m.eqs && n.lin == m.lin && n.ints == m.ints);
            assert(solves(n, rho));
            lemma_kept(m, n, rho);
        }
        law_atom_trivial(r, rho);
        law_resolved_atom(m, a, rho);
    }
}

proof fn lemma_operand_term(m: PhiModel, o: Operand, rho: Valuation)
    requires
        solves(m, rho),
    ensures
        term_value(operand_term(m, o), rho) == operand_value(o, rho),
{
    if let Operand::AbstractValue(v) = o {
        lemma_repr_value(m, v, rho);
    }
}

/// Where two operands were recorded as different without a contradiction, they
/// differ in whatever satisfies the state, which satisfies what held before.
pub proof fn law_not_equal_entails(m: PhiModel, a: Operand, b: Operand, rho: Valuation)
    requires
        phi_wf(m),
        not_equal(m, a, b) matches Some((_, SatUnsat::Sat(_))),
    ensures
        entails((not_equal(m, a, b)->0).0, m, rho),
        models((not_equal(m, a, b)->0).0, rho) ==> operand_value(a, rho) != operand_value(b, rho),
{
    law_atom_entails(m, Atom::NotEqual(operand_term(m, a), operand_term(m, b)), rho);
    if models((not_equal(m, a, b)->0).0, rho) {
        assert(solves(m, rho));
        lemma_operand_term(m, a, rho);
        lemma_operand_term(m, b, rho);
    }
}

/// Where two operands were recorded as equal without a contradiction, they are
/// equal in whatever satisfies the state, which satisfies what held before.
pub proof fn law_equal_operands_entails(m: PhiModel, a: Operand, b: Operand, rho: Valuation)
    requires
        phi_wf(m),
        equal_operands(m, a, b) matches Some((_, SatUnsat::Sat(_))),
    ensures
        entails((equal_operands(m, a, b)->0).0, m, rho),
        models((equal_operands(m, a, b)->0).0, rho) ==> operand_value(a, rho) == operand_value(
            b,
            rho,
        ),
{
    let n = (equal_operands(m, a, b)->0).0;
    if models(n, rho) {
        assert(solves(n, rho));
    }
    match (a, b) {
        (Operand::AbstractValue(v), Operand::AbstractValue(w)) => {
            law_var_equal_entails(m, v, w, rho);
        },
        (Operand::AbstractValue(v), Operand::ConstOperand(c)) => {
            law_const_eq_entails(m, v, c, rho);
        },
        (Operand::ConstOperand(c), Operand::AbstractValue(v)) => {
            law_const_eq_entails(m, v, c, rho);
        },
        _ => {},
    }
}

proof fn lemma_refine_entails(m: PhiModel, o: Operand, i: Option<CItv>, rho: Valuation)
    requires
        phi_wf(m),
        refine_operand(m, o, i) matches Some((_, true)),
    ensures
        phi_wf((refine_operand(m, o, i)->0).0),
        entails((refine_operand(m, o, i)->0).0, m, rho),
{
    if let (Some(j), Operand::AbstractValue(v)) = (i, o) {
        law_interval_entails(m, v, j, rho);
        super::path_laws::law_run_interval(m, v, j, rho);
    }
}

/// Checking a comparison against ranges forgets nothing that held.
pub proof fn law_ranges_entail(m: PhiModel, bop: Binop, a: Operand, b: Operand, rho: Valuation)
    requires
        phi_wf(m),
        check_ranges(m, bop, a, b) matches Some((_, true)),
    ensures
        phi_wf((check_ranges(m, bop, a, b)->0).0),
        entails((check_ranges(m, bop, a, b)->0).0, m, rho),
{
    let (i, j) = (operand_itv(m, a), operand_itv(m, b));
    if !(i is None && j is None) {
        if let AbductionResult::Satisfiable(x, y) = CItv::binop_abduced(
            false,
            bop,
            itv_or_all(i),
            itv_or_all(j),
        ) {
            lemma_refine_entails(m, a, x, rho);
            lemma_refine_entails((refine_operand(m, a, x)->0).0, b, y, rho);
        }
    }
}

/// Where an order was recorded without a contradiction, it holds in whatever
/// satisfies the state, which satisfies what held before.
pub proof fn law_less_entails(m: PhiModel, strict: bool, a: Operand, b: Operand, rho: Valuation)
    requires
        phi_wf(m),
        less(m, strict, a, b) matches Some((_, SatUnsat::Sat(_))),
    ensures
        entails((less(m, strict, a, b)->0).0, m, rho),
        models((less(m, strict, a, b)->0).0, rho) ==> if strict {
            operand_value(a, rho) < operand_value(b, rho)
        } else {
            operand_value(a, rho) <= operand_value(b, rho)
        },
{
    let bop = if strict {
        Binop::Lt
    } else {
        Binop::Le
    };
    law_ranges_entail(m, bop, a, b, rho);
    let m1 = (check_ranges(m, bop, a, b)->0).0;
    law_atom_entails(m1, order_atom(m1, strict, a, b), rho);
    if models((less(m, strict, a, b)->0).0, rho) {
        assert(solves(m1, rho));
        lemma_operand_term(m1, a, rho);
        lemma_operand_term(m1, b, rho);
    }
}

/// A path that was pruned by an equality or by its negation without a
/// contradiction satisfies it, and what held before.
pub proof fn law_prune_equal_entails(
    f: FormulaModel,
    v1: AbstractValue,
    v2: AbstractValue,
    negated: bool,
    depth: usize,
    rho: Valuation,
)
    requires
        phi_wf(f.phi),
        prune_equal(f, v1, v2, negated, depth) matches Some((_, SatUnsat::Sat(_))),
    ensures
        entails((prune_equal(f, v1, v2, negated, depth)->0).0.phi, f.phi, rho),
        models((prune_equal(f, v1, v2, negated, depth)->0).0.phi, rho) ==> (rho(v1) == rho(v2))
            != negated,
{
    let (a, b) = (Operand::AbstractValue(v1), Operand::AbstractValue(v2));
    let bop = if negated {
        Binop::Ne
    } else {
        Binop::Eq
    };
    law_ranges_entail(f.phi, bop, a, b, rho);
    let m = (check_ranges(f.phi, bop, a, b)->0).0;
    if negated {
        law_not_equal_entails(m, a, b, rho);
    } else {
        law_equal_operands_entails(m, a, b, rho);
    }
}

/// A path that was pruned by an order without a contradiction satisfies it, and
/// what held before.
pub proof fn law_prune_order_entails(
    f: FormulaModel,
    strict: bool,
    a: Operand,
    b: Operand,
    rho: Valuation,
)
    requires
        phi_wf(f.phi),
        prune_order(f, strict, a, b) matches Some((_, SatUnsat::Sat(_))),
    ensures
        entails((prune_order(f, strict, a, b)->0).0.phi, f.phi, rho),
        models((prune_order(f, strict, a, b)->0).0.phi, rho) ==> if strict {
            operand_value(a, rho) < operand_value(b, rho)
        } else {
            operand_value(a, rho) <= operand_value(b, rho)
        },
{
    law_less_entails(f.phi, strict, a, b, rho);
}

} // verus!
