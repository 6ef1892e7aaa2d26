//! What a state answers about a value, and what it remembers of pure calls.

use super::Operand;
use super::atom::{atom_holds, atom_negate, atom_trivial, Atom};
use super::binop_laws::lemma_known_const;
use super::citv::{Bound, CItv};
use super::formula_model::{
    conditions_filtered, conditions_with, conditions_within, known_nonzero, less, operand_itv,
    remembered, representatives_from, rewrite_conditions, FormulaModel,
};
use super::lin_arith::{lemma_lin_basics, lin_const, Valuation};
use super::meaning::{law_run_linear_eq, lemma_repr_value, models, phi_wf, whole};
use super::path_laws::{in_range, satisfies};
use super::phi::FnAppKey;
use super::progress_laws::{in_order, law_equal_values_share_a_class};
use super::range_laws::{law_at_most_possible, law_below_possible, law_intersection};
use super::resolve::{resolved_atom, summarized_atom};
use super::solver::{
    app_actual, app_key, atom_passes, known_const, refined_itv, run_atom, run_fn_app, run_interval,
    PhiModel,
};
use super::term::Term;
use super::var_uf::repr;
use crate::abstract_value::AbstractValue;
use crate::heap_laws::lemma_lookup_filter;
use crate::ordered::{
    lemma_lookup_has_key, lemma_lookup_put, lemma_put_sorted, lemma_set_put_contains, lookup, put,
    set_put, sorted,
};
use crate::rational::{lemma_int_wf, lemma_q_tests, q_int};
use crate::sat_unsat::SatUnsat;
use vstd::prelude::*;

verus! {

/// A value known not to be zero is not zero in any valuation; a value that is a known
/// constant is known not to be zero exactly where the constant is not.
pub proof fn law_known_nonzero(m: PhiModel, v: AbstractValue, rho: Valuation)
    requires
        phi_wf(m),
        satisfies(m, rho),
    ensures
        known_nonzero(m, v) ==> rho(v) != 0real,
        known_const(m, v) is Some ==> (known_nonzero(m, v) <==> rho(v) != 0real),
        known_const(m, v) is None && (lookup(m.itvs, repr(m.eqs, v)) matches Some(
            CItv::Between(Bound::Int(n), _),
        ) && n > 0) ==> known_nonzero(m, v),
{
    let r = repr(m.eqs, v);
    lemma_repr_value(m, v, rho);
    lemma_known_const(m, v, rho);
    if let Some(q) = known_const(m, v) {
        lemma_q_tests(q);
    } else {
        lemma_lookup_has_key(m.itvs, r);
        if let Some(i) = lookup(m.itvs, r) {
            assert(in_range(i, rho(r)));
            let k = choose|k: int| rho(r) == #[trigger] whole(k) && i.has(k);
        }
        lemma_atom_of(m, Atom::LessThan(Term::Const(0), Term::Var(r)), rho);
        lemma_atom_of(m, Atom::NotEqual(Term::Var(r), Term::Const(0)), rho);
        lemma_atom_of(m, Atom::NotEqual(Term::Const(0), Term::Var(r)), rho);
    }
}

proof fn lemma_atom_of(m: PhiModel, a: Atom, rho: Valuation)
    requires
        models(m, rho),
    ensures
        m.atoms.contains(a) ==> atom_holds(a, rho),
{
    if m.atoms.contains(a) {
        let i = choose|i: int| 0 <= i < m.atoms.len() && m.atoms[i] == a;
        assert(atom_holds(m.atoms[i], rho));
    }
}

/// Where a value was put into a range without a contradiction, and what was known of
/// it was an interval too, it is in the range, and still in the old one, in whatever
/// satisfies the state.
pub proof fn law_interval_recorded(m: PhiModel, v: AbstractValue, i: CItv, rho: Valuation)
    requires
        phi_wf(m),
        sorted::<AbstractValue, CItv>(m.itvs),
        run_interval(m, v, i) matches Some((_, true)),
        lookup(m.itvs, repr(m.eqs, v)) matches Some(e) ==> e is Between && i is Between,
    ensures
        satisfies((run_interval(m, v, i)->0).0, rho) ==> in_range(i, rho(repr(m.eqs, v))) && (
        lookup(m.itvs, repr(m.eqs, v)) matches Some(e) ==> in_range(e, rho(repr(m.eqs, v)))),
{
    let r = repr(m.eqs, v);
    let n = (run_interval(m, v, i)->0).0;
    let better = (refined_itv(m, v, i)->0)->0;
    let m1 = PhiModel { itvs: put::<AbstractValue, CItv>(m.itvs, r, better), ..m };
    if let Some(c) = better.singleton() {
        if known_const(m1, r) != Some(q_int(c)) {
            lemma_lin_basics(q_int(c), r, rho);
            lemma_int_wf(c);
            law_run_linear_eq(m1, r, lin_const(q_int(c)), rho);
        }
    }
    assert(n.itvs == m1.itvs);
    lemma_lookup_put::<AbstractValue, CItv>(m.itvs, r, better, r);
    lemma_lookup_has_key(n.itvs, r);
    if satisfies(n, rho) {
        let a = choose|a: int| 0 <= a < n.itvs.len() && (#[trigger] n.itvs[a]) == (r, better);
        assert(in_range(n.itvs[a].1, rho(n.itvs[a].0)));
        let k = choose|k: int| rho(r) == #[trigger] whole(k) && better.has(k);
        if let Some(e) = lookup(m.itvs, r) {
            law_intersection(e, i, k);
            assert(e.has(k) && i.has(k));
        }
    }
}

/// The same pure call on the same arguments gives the same value: the second result is
/// in the class of the first. Nothing is merged by a call that was not made before.
pub proof fn law_pure_call_again(
    m: PhiModel,
    first: AbstractValue,
    second: AbstractValue,
    callee: Seq<char>,
    actuals: Seq<AbstractValue>,
)
    requires
        in_order(m),
        sorted::<FnAppKey, AbstractValue>(m.apps),
        lookup(m.apps, app_key(m, callee, actuals)) is None,
    ensures
        run_fn_app(m, first, callee, actuals) matches Some((n, res)) && res == SatUnsat::Sat(
            Seq::<super::phi::NewEq>::empty(),
        ) && n.eqs == m.eqs && n.lin == m.lin && n.atoms == m.atoms && (run_fn_app(
            n,
            second,
            callee,
            actuals,
        ) matches Some((after, _)) ==> repr(after.eqs, second) == repr(after.eqs, first)),
{
    let key = app_key(m, callee, actuals);
    let r = repr(m.eqs, first);
    let (n, _) = run_fn_app(m, first, callee, actuals)->0;
    lemma_lookup_put::<FnAppKey, AbstractValue>(m.apps, key, r, key);
    assert forall|v: AbstractValue| #[trigger] app_actual(n, v) == app_actual(m, v) by {
        assert(known_const(n, v) == known_const(m, v));
    }
    assert(app_key(n, callee, actuals).actuals =~= key.actuals);
    let s = repr(n.eqs, second);
    assert(run_fn_app(n, second, callee, actuals) == super::solver::run_var_equal(n, s, r));
    law_equal_values_share_a_class(n, s, r);
    if let Some((after, _)) = run_fn_app(n, second, callee, actuals) {
        super::var_uf::law_representative_is_smallest(n.eqs, second);
        super::var_uf::law_representative_is_smallest(n.eqs, first);
        assert(repr(n.eqs, second) == repr(n.eqs, s));
        assert(repr(n.eqs, first) == repr(n.eqs, r));
        assert(repr(after.eqs, second) == repr(after.eqs, s));
        assert(repr(after.eqs, first) == repr(after.eqs, r));
    }
}

/// A comparison between two constants is decided, and so is one of a term with itself.
pub proof fn law_constants_are_compared(a: Atom, c: i64, d: i64)
    ensures
        a.lhs() == Term::Const(c) && a.rhs() == Term::Const(d) ==> atom_trivial(a) == Some(
            Some(
                match a {
                    Atom::LessEqual(_, _) => c <= d,
                    Atom::LessThan(_, _) => c < d,
                    Atom::Equal(_, _) => c == d,
                    Atom::NotEqual(_, _) => c != d,
                },
            ),
        ),
        a.lhs() == a.rhs() ==> atom_trivial(a) == Some(Some(a is LessEqual || a is Equal)),
{
}

/// A comparison whose negation a state has recorded is refused, and so is a strict one
/// whose converse or whose equality it has.
pub proof fn law_contradiction_is_found(m: PhiModel, a: Atom, r: Atom)
    requires
        resolved_atom(m, a) == Some(r),
        run_atom(m, a) is Some,
        m.atoms.contains(atom_negate(r)) || (r matches Atom::LessThan(x, y) && (m.atoms.contains(
            Atom::LessThan(y, x),
        ) || m.atoms.contains(Atom::Equal(x, y)))) || (r matches Atom::Equal(x, y)
            && m.atoms.contains(Atom::LessThan(x, y))),
    ensures
        (run_atom(m, a)->0).1 is Unsat || atom_trivial(r) == Some(Some(true)),
{
}

/// A comparison that was recorded is remembered, and can be recorded again without a
/// change.
pub proof fn law_atom_recorded(m: PhiModel, a: Atom, r: Atom)
    requires
        resolved_atom(m, a) == Some(r),
        atom_trivial(r) == Some(None::<bool>),
        run_atom(m, a) matches Some((_, SatUnsat::Sat(_))),
    ensures
        (run_atom(m, a)->0).0.atoms.contains(r),
        forall|b: Atom| #[trigger] m.atoms.contains(b) ==> (run_atom(m, a)->0).0.atoms.contains(b),
        (run_atom(m, a)->0).0.eqs == m.eqs && (run_atom(m, a)->0).0.lin == m.lin,
{
    lemma_set_put_contains::<Atom>(m.atoms, r, r);
    assert forall|b: Atom| #[trigger] m.atoms.contains(b) implies (run_atom(
        m,
        a,
    )->0).0.atoms.contains(b) by {
        lemma_set_put_contains::<Atom>(m.atoms, r, b);
    }
}

/// A condition is remembered at the smallest depth it was seen at, and others stay as
/// they were.
pub proof fn law_condition_remembered(s: Seq<(Atom, usize)>, a: Atom, depth: usize, b: Atom)
    requires
        sorted::<Atom, usize>(s),
    ensures
        sorted::<Atom, usize>(remembered(s, a, depth)),
        lookup(remembered(s, a, depth), a) matches Some(d) && d <= depth && (lookup(
            s,
            a,
        ) matches Some(e) ==> d <= e) && (d == depth || lookup(s, a) == Some(d)),
        b != a ==> lookup(remembered(s, a, depth), b) == lookup(s, b),
{
    let x = match lookup(s, a) {
        Some(e) => if e < depth {
            e
        } else {
            depth
        },
        None => depth,
    };
    lemma_put_sorted::<Atom, usize>(s, a, x);
    lemma_lookup_put::<Atom, usize>(s, a, x, a);
    lemma_lookup_put::<Atom, usize>(s, a, x, b);
}

/// A condition that was recorded without a contradiction is among the conditions of
/// the formula, unless it holds anyway.
pub proof fn law_condition_recorded(s: Seq<(Atom, usize)>, a: Atom, depth: usize, b: Atom)
    requires
        sorted::<Atom, usize>(s),
        conditions_with(s, Some(a), depth) is Some,
    ensures
        atom_trivial(a) != Some(Some(true)) ==> lookup(
            conditions_with(s, Some(a), depth)->0,
            a,
        ) is Some,
        lookup(s, b) is Some ==> lookup(conditions_with(s, Some(a), depth)->0, b) is Some,
        conditions_with(s, None, depth) == Some(s),
{
    law_condition_remembered(s, a, depth, b);
}

/// The representatives of some values are those, and no others.
pub proof fn law_representatives(
    m: PhiModel,
    s: Seq<AbstractValue>,
    acc: Seq<AbstractValue>,
    x: AbstractValue,
)
    ensures
        representatives_from(m, s, acc).contains(x) <==> acc.contains(x) || exists|i: int|
            0 <= i < s.len() && repr(m.eqs, #[trigger] s[i]) == x,
    decreases s.len(),
{
    if s.len() > 0 {
        let t = s.drop_first();
        let r = repr(m.eqs, s[0]);
        law_representatives(m, t, set_put::<AbstractValue>(acc, r), x);
        lemma_set_put_contains::<AbstractValue>(acc, r, x);
        if exists|i: int| 0 <= i < t.len() && repr(m.eqs, #[trigger] t[i]) == x {
            let i = choose|i: int| 0 <= i < t.len() && repr(m.eqs, #[trigger] t[i]) == x;
            assert(s[i + 1] == t[i]);
        }
        if exists|i: int| 0 <= i < s.len() && repr(m.eqs, #[trigger] s[i]) == x {
            let i = choose|i: int| 0 <= i < s.len() && repr(m.eqs, #[trigger] s[i]) == x;
            if i > 0 {
                assert(t[i - 1] == s[i]);
            }
        }
    }
}

/// The conditions kept over a vocabulary are those that mention nothing else.
pub proof fn law_conditions_within(
    m: PhiModel,
    s: Seq<(Atom, usize)>,
    vocabulary: Seq<AbstractValue>,
    acc: Seq<(Atom, usize)>,
    a: Atom,
)
    requires
        sorted::<Atom, usize>(acc),
    ensures
        lookup(conditions_within(m, s, vocabulary, acc), a) is Some <==> lookup(acc, a) is Some
            || exists|i: int|
            0 <= i < s.len() && (#[trigger] s[i]).0 == a && atom_passes(m, vocabulary, true, a),
    decreases s.len(),
{
    if s.len() > 0 {
        let t = s.drop_first();
        let next = if atom_passes(m, vocabulary, true, s[0].0) {
            remembered(acc, s[0].0, s[0].1)
        } else {
            acc
        };
        law_condition_remembered(acc, s[0].0, s[0].1, a);
        law_conditions_within(m, t, vocabulary, next, a);
        if exists|i: int|
            0 <= i < t.len() && (#[trigger] t[i]).0 == a && atom_passes(m, vocabulary, true, a) {
            let i = choose|i: int|
                0 <= i < t.len() && (#[trigger] t[i]).0 == a && atom_passes(
                    m,
                    vocabulary,
                    true,
                    a,
                );
            assert(s[i + 1] == t[i]);
        }
        if exists|i: int|
            0 <= i < s.len() && (#[trigger] s[i]).0 == a && atom_passes(m, vocabulary, true, a) {
            let i = choose|i: int|
                0 <= i < s.len() && (#[trigger] s[i]).0 == a && atom_passes(
                    m,
                    vocabulary,
                    true,
                    a,
                );
            if i > 0 {
                assert(t[i - 1] == s[i]);
            }
        }
    }
}

/// An order between two values whose ranges admit it for no pair of integers is
/// refused, and the state stays as it was.
pub proof fn law_ranges_refuse(
    m: PhiModel,
    strict: bool,
    a: Operand,
    b: Operand,
    i: CItv,
    j: CItv,
    x: int,
    y: int,
)
    requires
        operand_itv(m, a) == Some(i),
        operand_itv(m, b) == Some(j),
        i is Between && j is Between,
        i.has(x) && j.has(y),
        forall|v: int, w: int|
            #![trigger i.has(v), j.has(w)]
            i.has(v) && j.has(w) ==> !(v < w || (!strict && v == w)),
        less(m, strict, a, b) is Some,
    ensures
        less(m, strict, a, b) == Some((m, SatUnsat::<Seq<super::phi::NewEq>>::Unsat)),
{
    if strict {
        law_below_possible(i, j, x, y);
    } else {
        law_at_most_possible(i, j, x, y);
    }
}

/// Rewriting conditions over visible values keeps, at its depth, the rewritten form of
/// each that does not hold anyway, and nothing else.
pub proof fn law_conditions_rewritten(
    m: PhiModel,
    s: Seq<(Atom, usize)>,
    keep: Seq<AbstractValue>,
    acc: Seq<(Atom, usize)>,
    e: (Atom, usize),
)
    requires
        rewrite_conditions(m, s, keep, acc) is Some,
    ensures
        (rewrite_conditions(m, s, keep, acc)->0).contains(e) <==> acc.contains(e) || exists|i: int|
            0 <= i < s.len() && summarized_atom(m, keep, (#[trigger] s[i]).0) == Some(e.0) && s[i].1
                == e.1 && atom_trivial(e.0) != Some(Some(true)),
    decreases s.len(),
{
    if s.len() > 0 {
        let t = s.drop_first();
        let a = summarized_atom(m, keep, s[0].0)->0;
        let next = if atom_trivial(a) == Some(Some(true)) {
            acc
        } else {
            acc.push((a, s[0].1))
        };
        law_conditions_rewritten(m, t, keep, next, e);
        if next.contains(e) && next != acc {
            let k = choose|k: int| 0 <= k < next.len() && next[k] == e;
            if k < acc.len() {
                assert(acc[k] == e);
            }
        }
        if acc.contains(e) {
            let k = choose|k: int| 0 <= k < acc.len() && acc[k] == e;
            assert(next[k] == e);
        }
        if next != acc {
            assert(next[acc.len() as int] == (a, s[0].1));
        }
        if exists|i: int|
            0 <= i < t.len() && summarized_atom(m, keep, (#[trigger] t[i]).0) == Some(e.0) && t[i].1
                == e.1 && atom_trivial(e.0) != Some(Some(true)) {
            let i = choose|i: int|
                0 <= i < t.len() && summarized_atom(m, keep, (#[trigger] t[i]).0) == Some(e.0)
                    && t[i].1 == e.1 && atom_trivial(e.0) != Some(Some(true));
            assert(s[i + 1] == t[i]);
        }
        if exists|i: int|
            0 <= i < s.len() && summarized_atom(m, keep, (#[trigger] s[i]).0) == Some(e.0) && s[i].1
                == e.1 && atom_trivial(e.0) != Some(Some(true)) {
            let i = choose|i: int|
                0 <= i < s.len() && summarized_atom(m, keep, (#[trigger] s[i]).0) == Some(e.0)
                    && s[i].1 == e.1 && atom_trivial(e.0) != Some(Some(true));
            if i > 0 {
                assert(t[i - 1] == s[i]);
            }
        }
    }
}

/// Forgetting facts of a formula keeps, at its depth, each condition whose values all
/// pass, and no other.
pub proof fn law_conditions_filtered(
    f: FormulaModel,
    set: Seq<AbstractValue>,
    inside: bool,
    a: Atom,
)
    requires
        sorted::<Atom, usize>(f.conditions),
    ensures
        lookup(conditions_filtered(f, set, inside), a) == if atom_passes(f.phi, set, inside, a) {
            lookup(f.conditions, a)
        } else {
            None
        },
{
    let p = |e: (Atom, usize)| atom_passes(f.phi, set, inside, e.0);
    assert(conditions_filtered(f, set, inside) == f.conditions.filter(p));
    lemma_lookup_filter::<Atom, usize>(f.conditions, p, a);
}

} // verus!
