//! Whether the result of a pure call can be recorded within the 64-bit integers.

use super::Formula;
use super::atom::{atom_subst, Atom};
use super::lin_arith::{
    coeffs_wf, law_add, lemma_lin_basics, lin_add, lin_const, lin_scale, lin_var, lin_wf, Coeffs,
    Lin, LinArith,
};
use super::lin_laws::{coeff, lemma_add_coeffs_defined, lemma_add_mentions, lemma_coeff, mentions};
use super::meaning::phi_wf;
use super::phi::{is_used_in_range, NewEq, Phi};
use super::solver::{
    app_key, integers_consistent, mentioning, normalize_from, run_fn_app, run_updates,
    run_var_equal, substitute_atoms, substituted, used_in_range, PhiModel,
};
use super::term::{replacing, term_const, term_map, term_subst, zero_test, Term};
use super::var_uf::{
    law_representative_is_smallest, law_union_merges_two_classes, repr, union_result,
};
use crate::abstract_value::AbstractValue;
use crate::ordered::{lemma_lookup_at, lemma_lookup_has_key, lookup, set_put, OrdKey, OrdSet};
use crate::rational::{law_add_zero, law_mul_units, lemma_one, q_add, q_int, Q};
use crate::sat_unsat::SatUnsat;
use vstd::prelude::*;

verus! {

/// Every variable on a right-hand side stands for itself.
pub open spec fn stands_for_itself(m: PhiModel, l: Lin) -> bool {
    forall|i: int|
        0 <= i < l.vars.len() ==> repr(m.eqs, (#[trigger] l.vars[i]).0) == l.vars[i].0 && lookup(
            m.lin,
            l.vars[i].0,
        ) is None
}

/// The equations are as normalizing would leave them.
pub open spec fn settled(m: PhiModel) -> bool {
    forall|i: int| 0 <= i < m.lin.len() ==> stands_for_itself(m, (#[trigger] m.lin[i]).1)
}

/// Both sides fold within the 64-bit integers.
pub open spec fn folds(a: Atom) -> bool {
    term_const(a.lhs()) is Some && term_const(a.rhs()) is Some
}

pub open spec fn all_fold(s: Seq<Atom>) -> bool {
    forall|i: int| 0 <= i < s.len() ==> folds(#[trigger] s[i])
}

/// `v` can join the class of a smaller value: it has no equation, is mentioned by none,
/// and nothing that is looked at again leaves the 64-bit integers.
pub open spec fn can_join(m: PhiModel, v: AbstractValue) -> bool {
    lookup(m.lin, v) is None && !used_in_range(m.lin, v) && settled(m) && all_fold(m.atoms)
}

impl Term {
    /// The constant that a term folds to, if it folds within the 64-bit integers.
    fn checked_const(&self) -> (r: Option<Option<i64>>)
        ensures
            r == term_const(*self),
        decreases self,
    {
        match self {
            Term::Const(c) => Some(Some(*c)),
            Term::Rational(_) => Some(None),
            Term::Var(_) => Some(None),
            Term::Add(a, b) => match a.checked_const() {
                None => None,
                Some(None) => Some(None),
                Some(Some(x)) => match b.checked_const() {
                    None => None,
                    Some(None) => Some(None),
                    Some(Some(y)) => match x.checked_add(y) {
                        None => None,
                        Some(z) => Some(Some(z)),
                    },
                },
            },
            Term::Sub(a, b) => match a.checked_const() {
                None => None,
                Some(None) => Some(None),
                Some(Some(x)) => match b.checked_const() {
                    None => None,
                    Some(None) => Some(None),
                    Some(Some(y)) => match x.checked_sub(y) {
                        None => None,
                        Some(z) => Some(Some(z)),
                    },
                },
            },
            Term::Mult(a, b) => match a.checked_const() {
                None => None,
                Some(None) => Some(None),
                Some(Some(x)) => match b.checked_const() {
                    None => None,
                    Some(None) => Some(None),
                    Some(Some(y)) => match x.checked_mul(y) {
                        None => None,
                        Some(z) => Some(Some(z)),
                    },
                },
            },
            Term::Neg(a) => match a.checked_const() {
                None => None,
                Some(None) => Some(None),
                Some(Some(x)) => if x == i64::MIN {
                    None
                } else {
                    Some(Some(-x))
                },
            },
            Term::Not(a) => folded_zero_test(a.checked_const()),
            Term::IsZero(a) => folded_zero_test(a.checked_const()),
        }
    }
}

fn folded_zero_test(c: Option<Option<i64>>) -> (r: Option<Option<i64>>)
    ensures
        r == (match c {
            None => None,
            Some(None) => Some(None),
            Some(Some(x)) => Some(Some(zero_test(x))),
        }),
{
    match c {
        None => None,
        Some(None) => Some(None),
        Some(Some(x)) => if x == 0 {
            Some(Some(1))
        } else {
            Some(Some(0))
        },
    }
}

fn atoms_fold(atoms: &OrdSet<Atom>) -> (b: bool)
    ensures
        b == all_fold(atoms@),
{
    let mut i: usize = 0;
    while i < atoms.len()
        invariant
            i <= atoms@.len(),
            forall|j: int| 0 <= j < i ==> folds(#[trigger] atoms@[j]),
        decreases atoms@.len() - i,
    {
        let (a, b) = atoms.at(i).sides();
        if a.checked_const().is_none() || b.checked_const().is_none() {
            assert(!folds(atoms@[i as int]));
            return false;
        }
        i = i + 1;
    }
    true
}

impl Phi {
    fn is_self_standing(&self, lin: &LinArith) -> (b: bool)
        ensures
            b == stands_for_itself(self@, lin@),
    {
        let mut i: usize = 0;
        while i < lin.vars.len()
            invariant
                i <= lin@.vars.len(),
                forall|j: int|
                    0 <= j < i ==> repr(self@.eqs, (#[trigger] lin@.vars[j]).0) == lin@.vars[j].0
                        && lookup(self@.lin, lin@.vars[j].0) is None,
            decreases lin@.vars.len() - i,
        {
            let v = *lin.vars.key_at(i);
            if self.get_repr(v) != v || self.linear_eqs.contains_key(&v) {
                assert(lin@.vars[i as int].0 == v);
                return false;
            }
            i = i + 1;
        }
        true
    }

    fn is_settled(&self) -> (b: bool)
        ensures
            b == settled(self@),
    {
        let mut i: usize = 0;
        while i < self.linear_eqs.len()
            invariant
                i <= self@.lin.len(),
                forall|j: int| 0 <= j < i ==> stands_for_itself(self@, (#[trigger] self@.lin[j]).1),
            decreases self@.lin.len() - i,
        {
            if !self.is_self_standing(self.linear_eqs.value_at(i)) {
                assert(!stands_for_itself(self@, self@.lin[i as int].1));
                return false;
            }
            i = i + 1;
        }
        true
    }

    fn is_joinable(&self, v: AbstractValue) -> (b: bool)
        ensures
            b == can_join(self@, v),
    {
        !self.linear_eqs.contains_key(&v) && !is_used_in_range(&self.linear_eqs, v)
            && self.is_settled() && atoms_fold(&self.atoms)
    }
}

/// The result of a pure call can be recorded: the call is new, or its result is that of
/// the same call made before, or a value that can join the class of that.
pub open spec fn call_fits(
    m: PhiModel,
    ret: AbstractValue,
    callee: Seq<char>,
    actuals: Seq<AbstractValue>,
) -> bool {
    match lookup(m.apps, app_key(m, callee, actuals)) {
        None => true,
        Some(existing) => {
            let (r, k) = (repr(m.eqs, ret), repr(m.eqs, existing));
            r == k || (k.0 < r.0 && can_join(m, r))
        },
    }
}

impl Formula {
    /// Whether the result of a pure call can be recorded within the 64-bit integers.
    pub fn fn_app_fits(
        &self,
        ret_val: AbstractValue,
        callee: &str,
        actuals: &Vec<AbstractValue>,
    ) -> (b: bool)
        ensures
            b == call_fits(self@.phi, ret_val, callee@, actuals@),
            b && phi_wf(self@.phi) ==> run_fn_app(
                self@.phi,
                ret_val,
                callee@,
                actuals@,
            ) is Some,
    {
        proof {
            if call_fits(self@.phi, ret_val, callee@, actuals@) && phi_wf(self@.phi) {
                law_call_fits(self@.phi, ret_val, callee@, actuals@);
            }
        }
        let phi = self.phi();
        let key = phi.call_key(callee, actuals);
        match phi.fn_app_eqs.get(&key) {
            None => true,
            Some(existing) => {
                let r = phi.get_repr(ret_val);
                let k = phi.get_repr(*existing);
                r == k || (k.raw() < r.raw() && phi.is_joinable(r))
            },
        }
    }
}

/// Renaming variables changes no constant.
proof fn lemma_renamed_const(t: Term, x: AbstractValue, y: AbstractValue)
    ensures
        term_const(term_subst(t, x, Term::Var(y))) == term_const(t),
    decreases t,
{
    let f = replacing(x, Term::Var(y));
    match t {
        Term::Var(_) | Term::Const(_) | Term::Rational(_) => {},
        Term::Add(a, b) | Term::Sub(a, b) | Term::Mult(a, b) => {
            lemma_renamed_const(*a, x, y);
            lemma_renamed_const(*b, x, y);
            assert(*Box::new(term_map(*a, f)) == term_map(*a, f));
            assert(*Box::new(term_map(*b, f)) == term_map(*b, f));
        },
        Term::Neg(a) | Term::Not(a) | Term::IsZero(a) => {
            lemma_renamed_const(*a, x, y);
            assert(*Box::new(term_map(*a, f)) == term_map(*a, f));
        },
    }
}

proof fn lemma_atoms_renamed(s: Seq<Atom>, x: AbstractValue, y: AbstractValue, acc: Seq<Atom>)
    requires
        all_fold(s),
    ensures
        substitute_atoms(s, x, Term::Var(y), acc) is Some,
    decreases s.len(),
{
    if s.len() > 0 {
        let a = atom_subst(s[0], x, Term::Var(y));
        assert(folds(s[0]));
        lemma_renamed_const(s[0].lhs(), x, y);
        lemma_renamed_const(s[0].rhs(), x, y);
        let rest = s.drop_first();
        assert forall|i: int| 0 <= i < rest.len() implies folds(#[trigger] rest[i]) by {
            assert(rest[i] == s[i + 1]);
        }
        lemma_atoms_renamed(rest, x, y, acc);
        lemma_atoms_renamed(rest, x, y, set_put::<Atom>(acc, a));
    }
}

/// Equations that do not mention `x` are left alone by a substitution.
proof fn lemma_substituted_absent(
    s: Seq<(AbstractValue, Lin)>,
    x: AbstractValue,
    r: Lin,
    acc: Seq<(AbstractValue, Lin)>,
)
    requires
        !used_in_range(s, x),
    ensures
        substituted(s, x, r, acc) == Some(acc + s),
        mentioning(s, x, Seq::empty()) == Seq::<AbstractValue>::empty(),
    decreases s.len(),
{
    if s.len() == 0 {
        assert(acc + s =~= acc);
    } else {
        let rest = s.drop_first();
        assert(lookup(s[0].1.vars, x) is None);
        assert(!used_in_range(rest, x)) by {
            if used_in_range(rest, x) {
                let i = choose|i: int|
                    0 <= i < rest.len() && lookup((#[trigger] rest[i]).1.vars, x) is Some;
                assert(lookup(s[i + 1].1.vars, x) is Some);
            }
        }
        lemma_substituted_absent(rest, x, r, acc.push(s[0]));
        assert(acc.push((s[0].0, s[0].1)) =~= acc.push(s[0]));
        assert(acc.push(s[0]) + rest =~= acc + s);
    }
}

/// Normalizing an expression of variables that stand for themselves succeeds.
proof fn lemma_normalize_fits(m: PhiModel, acc: Lin, s: Coeffs)
    requires
        lin_wf(acc),
        coeffs_wf(s),
        forall|i: int|
            0 <= i < s.len() ==> repr(m.eqs, (#[trigger] s[i]).0) == s[i].0 && lookup(
                m.lin,
                s[i].0,
            ) is None && lookup(acc.vars, s[i].0) is None,
    ensures
        normalize_from(m, acc, s) is Some,
    decreases s.len(),
{
    if s.len() > 0 {
        let (x, q) = s[0];
        let rho = |v: AbstractValue| 0real;
        assert(q.wf() && q.numer != 0);
        assert(repr(m.eqs, s[0].0) == x && lookup(acc.vars, x) is None);
        lemma_lin_basics(q_int(0), x, rho);
        law_mul_units(q);
        let one = lin_var(x);
        assert(one.vars[0] == (x, q_int(1)));
        assert(lin_scale(one, q) is Some);
        let t = lin_scale(one, q)->0;
        super::lin_arith::law_scale(one, q, rho);
        assert(t.c == q_int(0) && t.vars =~= seq![(x, q)]) by {
            if q.numer == q.denom {
                lemma_one(q);
            }
        }
        law_add_zero(acc.c);
        assert forall|v: AbstractValue| (#[trigger] q_add(coeff(acc.vars, v), coeff(t.vars, v))) is Some by {
            lemma_coeff(acc.vars, v);
            law_add_zero(coeff(acc.vars, v));
            law_add_zero(q);
            assert(t.vars[0] == (x, q));
            assert(t.vars.drop_first() =~= Coeffs::empty());
            assert(lookup(t.vars.drop_first(), v) is None);
        }
        lemma_add_coeffs_defined(acc.vars, t.vars);
        let next = lin_add(acc, t)->0;
        law_add(acc, t, rho);
        let rest = s.drop_first();
        crate::ordered::lemma_sorted_drop_first::<AbstractValue, Q>(s);
        assert forall|i: int| 0 <= i < rest.len() implies (#[trigger] rest[i]).1.wf()
            && rest[i].1.numer != 0 by {
            assert(rest[i] == s[i + 1]);
        }
        assert forall|i: int| 0 <= i < rest.len() implies repr(m.eqs, (#[trigger] rest[i]).0)
            == rest[i].0 && lookup(m.lin, rest[i].0) is None && lookup(next.vars, rest[i].0) is None by {
            assert(rest[i] == s[i + 1]);
            assert(<AbstractValue as OrdKey>::lt(s[0].0, s[i + 1].0));
            if mentions(next, rest[i].0) {
                lemma_add_mentions(acc, t, rest[i].0);
                assert(t.vars[0] == (x, q));
                lemma_lookup_has_key(t.vars, rest[i].0);
            }
        }
        lemma_normalize_fits(m, next, rest);
    }
}

proof fn lemma_integers_fit(m: PhiModel, s: Seq<AbstractValue>)
    requires
        settled(m),
        forall|i: int| 0 <= i < m.lin.len() ==> lin_wf((#[trigger] m.lin[i]).1),
    ensures
        integers_consistent(m, s) is Some,
    decreases s.len(),
{
    if s.len() > 0 {
        lemma_integers_fit(m, s.drop_first());
        let r = repr(m.eqs, s[0]);
        if let Some(l) = lookup(m.lin, r) {
            lemma_lookup_has_key(m.lin, r);
            let i = choose|i: int| 0 <= i < m.lin.len() && (#[trigger] m.lin[i]) == (r, l);
            assert(lin_wf(m.lin[i].1) && stands_for_itself(m, m.lin[i].1));
            lemma_lin_basics(l.c, r, |v: AbstractValue| 0real);
            lemma_normalize_fits(m, lin_const(l.c), l.vars);
        }
    }
}

/// A value that can join the class of a smaller one does so within the 64-bit integers.
pub proof fn law_joining_fits(m: PhiModel, v: AbstractValue, w: AbstractValue)
    requires
        phi_wf(m),
        repr(m.eqs, w).0 < repr(m.eqs, v).0,
        can_join(m, repr(m.eqs, v)),
    ensures
        run_var_equal(m, v, w) is Some,
{
    let (gone, keep) = (repr(m.eqs, v), repr(m.eqs, w));
    let e = union_result(m.eqs, v, w).0;
    let m1 = PhiModel { eqs: e, ..m };
    let first = seq![NewEq::Equal(gone, keep)];
    let none: Seq<(AbstractValue, Lin)> = Seq::empty();
    assert(union_result(m.eqs, v, w).1 == Some((gone, keep)));
    lemma_substituted_absent(m.lin, gone, lin_var(keep), none);
    assert(none + m.lin =~= m.lin);
    assert(run_updates(super::solver::room(m1), m1, Seq::empty(), first) == Some(
        (m1, SatUnsat::<Seq<NewEq>>::Sat(first)),
    ));
    assert(settled(m1)) by {
        assert forall|i: int| 0 <= i < m1.lin.len() implies stands_for_itself(
            m1,
            (#[trigger] m1.lin[i]).1,
        ) by {
            let l = m.lin[i].1;
            assert(stands_for_itself(m, l));
            assert forall|j: int| 0 <= j < l.vars.len() implies repr(m1.eqs, (#[trigger] l.vars[j]).0)
                == l.vars[j].0 && lookup(m1.lin, l.vars[j].0) is None by {
                let x = l.vars[j].0;
                law_union_merges_two_classes(m.eqs, v, w, x);
                if x == gone {
                    assert(lin_wf(m.lin[i].1));
                    lemma_lookup_at::<AbstractValue, Q>(l.vars, j);
                    assert(lookup(m.lin[i].1.vars, gone) is Some);
                }
            }
        }
    }
    lemma_integers_fit(m1, m1.ints);
    lemma_atoms_renamed(m1.atoms, gone, keep, Seq::empty());
}

/// Where a pure call fits, recording it stays within the 64-bit integers.
pub proof fn law_call_fits(
    m: PhiModel,
    ret: AbstractValue,
    callee: Seq<char>,
    actuals: Seq<AbstractValue>,
)
    requires
        phi_wf(m),
        call_fits(m, ret, callee, actuals),
    ensures
        run_fn_app(m, ret, callee, actuals) is Some,
{
    if let Some(existing) = lookup(m.apps, app_key(m, callee, actuals)) {
        let r = repr(m.eqs, ret);
        law_representative_is_smallest(m.eqs, ret);
        if r != repr(m.eqs, existing) {
            law_joining_fits(m, r, existing);
        }
    }
}

} // verus!
