//! Rewriting terms and atoms by what the solver knows.
//!
//! Every rewriting here replaces the variables of a term and folds constants
//! on the way back up; they differ in what a variable becomes. A result `None`
//! stands for a fold that leaves the 64-bit integers.

use super::atom::Atom;
use super::citv::in_i64;
use super::lin_arith::{lin_as_const, lin_scale, lin_sub, lin_var, Coeffs, Lin, LinArith};
use super::phi::Phi;
use super::solver::PhiModel;
use super::term::{int_difference, int_product, int_sum, term_const, term_of_q, zero_test, Term};
use super::var_uf::repr;
use crate::abstract_value::AbstractValue;
use crate::ordered::{del, lemma_lookup_has_key, lemma_put_back, lookup, Dup, OrdMap, OrdSet};
use crate::rational::{abs, q_div, q_int, Q};
use vstd::prelude::*;

verus! {

/// A set of abstract values.
pub type ValueSet = OrdSet<AbstractValue>;

/// `mk`, or the constant that `op` gives where both terms fold.
pub open spec fn folded_two(a: Term, b: Term, op: spec_fn(int, int) -> int, mk: Term) -> Option<
    Term,
> {
    match (term_const(a), term_const(b)) {
        (Some(Some(x)), Some(Some(y))) => if in_i64(op(x as int, y as int)) {
            Some(Term::Const(op(x as int, y as int) as i64))
        } else {
            None
        },
        (Some(_), Some(_)) => Some(mk),
        _ => None,
    }
}

pub open spec fn folded_add(a: Term, b: Term) -> Option<Term> {
    folded_two(a, b, int_sum(), Term::Add(Box::new(a), Box::new(b)))
}

pub open spec fn folded_sub(a: Term, b: Term) -> Option<Term> {
    folded_two(a, b, int_difference(), Term::Sub(Box::new(a), Box::new(b)))
}

pub open spec fn folded_mult(a: Term, b: Term) -> Option<Term> {
    folded_two(a, b, int_product(), Term::Mult(Box::new(a), Box::new(b)))
}

pub open spec fn folded_neg(a: Term) -> Option<Term> {
    match term_const(a) {
        None => None,
        Some(None) => Some(Term::Neg(Box::new(a))),
        Some(Some(x)) => if x == i64::MIN {
            None
        } else {
            Some(Term::Const((-x) as i64))
        },
    }
}

pub open spec fn folded_test(a: Term, mk: Term) -> Option<Term> {
    match term_const(a) {
        None => None,
        Some(None) => Some(mk),
        Some(Some(x)) => Some(Term::Const(zero_test(x))),
    }
}

/// The term with each variable replaced by what `on_var` gives and constants
/// folded. Negations of truth values fold only where `fold_not` says so.
pub open spec fn rebuilt(
    t: Term,
    on_var: spec_fn(AbstractValue) -> Option<Term>,
    fold_not: bool,
) -> Option<Term>
    decreases t,
{
    match t {
        Term::Var(v) => on_var(v),
        Term::Const(_) | Term::Rational(_) => Some(t),
        Term::Add(a, b) => match (rebuilt(*a, on_var, fold_not), rebuilt(*b, on_var, fold_not)) {
            (Some(x), Some(y)) => folded_add(x, y),
            _ => None,
        },
        Term::Sub(a, b) => match (rebuilt(*a, on_var, fold_not), rebuilt(*b, on_var, fold_not)) {
            (Some(x), Some(y)) => folded_sub(x, y),
            _ => None,
        },
        Term::Mult(a, b) => match (rebuilt(*a, on_var, fold_not), rebuilt(*b, on_var, fold_not)) {
            (Some(x), Some(y)) => folded_mult(x, y),
            _ => None,
        },
        Term::Neg(a) => match rebuilt(*a, on_var, fold_not) {
            Some(x) => folded_neg(x),
            None => None,
        },
        Term::Not(a) => match rebuilt(*a, on_var, fold_not) {
            Some(x) => if fold_not {
                folded_test(x, Term::Not(Box::new(x)))
            } else {
                Some(Term::Not(Box::new(x)))
            },
            None => None,
        },
        Term::IsZero(a) => match rebuilt(*a, on_var, fold_not) {
            Some(x) => folded_test(x, Term::IsZero(Box::new(x))),
            None => None,
        },
    }
}

pub open spec fn rebuilt_atom(
    a: Atom,
    on_var: spec_fn(AbstractValue) -> Option<Term>,
    fold_not: bool,
) -> Option<Atom> {
    match (rebuilt(a.lhs(), on_var, fold_not), rebuilt(a.rhs(), on_var, fold_not)) {
        (Some(x), Some(y)) => Some(a.between(x, y)),
        _ => None,
    }
}

/// A variable as its integer constant where it has one, as its representative
/// otherwise.
pub open spec fn resolved_var(m: PhiModel, v: AbstractValue) -> Term {
    let r = repr(m.eqs, v);
    match lookup(m.lin, r) {
        Some(l) => match lin_as_const(l) {
            Some(q) => if q.denom == 1 {
                Term::Const(q.numer)
            } else {
                Term::Var(r)
            },
            None => Term::Var(r),
        },
        None => Term::Var(r),
    }
}

pub open spec fn resolving(m: PhiModel) -> spec_fn(AbstractValue) -> Option<Term> {
    |v: AbstractValue| Some(resolved_var(m, v))
}

pub open spec fn resolved_atom(m: PhiModel, a: Atom) -> Option<Atom> {
    rebuilt_atom(a, resolving(m), false)
}

/// `t` times a coefficient.
pub open spec fn scaled_term(q: Q, t: Term) -> Term {
    if q == q_int(1) {
        t
    } else if q == q_int((-1) as i64) {
        Term::Neg(Box::new(t))
    } else {
        Term::Mult(Box::new(term_of_q(q)), Box::new(t))
    }
}

pub open spec fn added_term(acc: Option<Term>, t: Term) -> Option<Term> {
    match acc {
        None => Some(t),
        Some(a) => folded_add(a, t),
    }
}

pub open spec fn constant_part(q: Q) -> Option<Term> {
    if q.numer != 0 {
        Some(term_of_q(q))
    } else {
        None
    }
}

pub open spec fn or_zero(t: Option<Term>) -> Term {
    match t {
        None => Term::Const(0),
        Some(t) => t,
    }
}

/// `acc` plus the terms `s` over representatives.
pub open spec fn condition_sum(m: PhiModel, s: Coeffs, acc: Option<Term>) -> Option<Term>
    decreases s.len(),
{
    if s.len() == 0 {
        Some(or_zero(acc))
    } else {
        match added_term(acc, scaled_term(s[0].1, Term::Var(repr(m.eqs, s[0].0)))) {
            None => None,
            Some(t) => condition_sum(m, s.drop_first(), Some(t)),
        }
    }
}

/// What the equation `lhs = l` says of `r`, which occurs in `l`: the rest of
/// the equation divided by the coefficient of `r`.
pub open spec fn solved_for(lhs: AbstractValue, l: Lin, r: AbstractValue) -> Option<Option<Lin>> {
    match lin_sub(lin_var(lhs), l) {
        None => None,
        Some(e) => if lookup(e.vars, r) is None {
            Some(None)
        } else {
            match q_div(q_int(1), lookup(l.vars, r)->0) {
                None => None,
                Some(scale) => match lin_scale(Lin { c: e.c, vars: del(e.vars, r) }, scale) {
                    None => None,
                    Some(sol) => Some(Some(sol)),
                },
            }
        },
    }
}

/// The first of the equations `s` that can be solved for `r`, solved.
pub open spec fn first_solution(s: Seq<(AbstractValue, Lin)>, r: AbstractValue) -> Option<
    Option<Lin>,
>
    decreases s.len(),
{
    if s.len() == 0 {
        Some(None)
    } else if lookup(s[0].1.vars, r) is None {
        first_solution(s.drop_first(), r)
    } else {
        match solved_for(s[0].0, s[0].1, r) {
            None => None,
            Some(None) => first_solution(s.drop_first(), r),
            Some(Some(l)) => Some(Some(l)),
        }
    }
}

/// A variable of a path condition: its integer constant, or, where it has no
/// equation of its own, its solution from an equation that mentions it.
pub open spec fn condition_var(m: PhiModel, v: AbstractValue) -> Option<Term> {
    let r = repr(m.eqs, v);
    if lookup(m.lin, r) is Some {
        Some(resolved_var(m, v))
    } else {
        match first_solution(m.lin, r) {
            None => None,
            Some(None) => Some(Term::Var(r)),
            Some(Some(l)) => condition_sum(m, l.vars, constant_part(l.c)),
        }
    }
}

pub open spec fn condition_resolving(m: PhiModel) -> spec_fn(AbstractValue) -> Option<Term> {
    |v: AbstractValue| condition_var(m, v)
}

pub open spec fn normalized_condition(m: PhiModel, a: Atom) -> Option<Atom> {
    rebuilt_atom(a, condition_resolving(m), true)
}

/// `a` is shown rather than `b`: unrestricted before restricted, then the
/// smaller magnitude.
pub open spec fn preferred(a: AbstractValue, b: AbstractValue) -> bool {
    if a.0 > 0 && b.0 < 0 {
        true
    } else if a.0 < 0 && b.0 > 0 {
        false
    } else {
        abs(a.0 as int) < abs(b.0 as int)
    }
}

/// The preferred value among `best` and the members of `s` in the class of
/// `r`.
pub open spec fn best_of(
    m: PhiModel,
    s: Seq<AbstractValue>,
    r: AbstractValue,
    best: Option<AbstractValue>,
) -> Option<AbstractValue>
    decreases s.len(),
{
    if s.len() == 0 {
        best
    } else if repr(m.eqs, s[0]) != r {
        best_of(m, s.drop_first(), r, best)
    } else {
        match best {
            None => best_of(m, s.drop_first(), r, Some(s[0])),
            Some(b) => best_of(
                m,
                s.drop_first(),
                r,
                Some(
                    if preferred(s[0], b) {
                        s[0]
                    } else {
                        b
                    },
                ),
            ),
        }
    }
}

/// The value under which `v` is visible outside, if any: itself, or the
/// preferred visible member of its class.
pub open spec fn visible_var(m: PhiModel, keep: Seq<AbstractValue>, v: AbstractValue) -> Option<
    AbstractValue,
> {
    if keep.contains(v) {
        Some(v)
    } else {
        best_of(m, keep, repr(m.eqs, v), None)
    }
}

/// `v` over visible values, expanding equations of `left`, each at most once
/// on a path. The inner `None` stands for a value that has no such term.
pub open spec fn visible_term(
    m: PhiModel,
    keep: Seq<AbstractValue>,
    v: AbstractValue,
    left: Seq<(AbstractValue, Lin)>,
) -> Option<Option<Term>>
    decreases left.len(), 0nat,
{
    match visible_var(m, keep, v) {
        Some(w) => Some(Some(Term::Var(w))),
        None => {
            let r = repr(m.eqs, v);
            match lookup(left, r) {
                None => Some(None),
                Some(l) => if del(left, r).len() < left.len() {
                    visible_sum(m, keep, l.vars, constant_part(l.c), del(left, r))
                } else {
                    None
                },
            }
        },
    }
}

/// `acc` plus the terms `s` over visible values.
pub open spec fn visible_sum(
    m: PhiModel,
    keep: Seq<AbstractValue>,
    s: Coeffs,
    acc: Option<Term>,
    left: Seq<(AbstractValue, Lin)>,
) -> Option<Option<Term>>
    decreases left.len(), s.len() + 1,
{
    if s.len() == 0 {
        Some(Some(or_zero(acc)))
    } else {
        match visible_term(m, keep, s[0].0, left) {
            None => None,
            Some(None) => Some(None),
            Some(Some(t)) => match added_term(acc, scaled_term(s[0].1, t)) {
                None => None,
                Some(a) => visible_sum(m, keep, s.drop_first(), Some(a), left),
            },
        }
    }
}

/// A variable of an exported condition: over visible values where possible.
pub open spec fn summary_var(m: PhiModel, keep: Seq<AbstractValue>, v: AbstractValue) -> Option<
    Term,
> {
    match visible_term(m, keep, v, m.lin) {
        None => None,
        Some(Some(t)) => Some(t),
        Some(None) => Some(resolved_var(m, v)),
    }
}

pub open spec fn summarizing(m: PhiModel, keep: Seq<AbstractValue>) -> spec_fn(
    AbstractValue,
) -> Option<Term> {
    |v: AbstractValue| summary_var(m, keep, v)
}

pub open spec fn summarized_atom(m: PhiModel, keep: Seq<AbstractValue>, a: Atom) -> Option<Atom> {
    rebuilt_atom(a, summarizing(m, keep), true)
}

fn fold_add(a: Term, b: Term) -> (r: Term)
    requires
        folded_add(a, b) is Some,
    ensures
        Some(r) == folded_add(a, b),
{
    match (a.as_const(), b.as_const()) {
        (Some(x), Some(y)) => Term::Const(x + y),
        _ => Term::Add(Box::new(a), Box::new(b)),
    }
}

fn fold_sub(a: Term, b: Term) -> (r: Term)
    requires
        folded_sub(a, b) is Some,
    ensures
        Some(r) == folded_sub(a, b),
{
    match (a.as_const(), b.as_const()) {
        (Some(x), Some(y)) => Term::Const(x - y),
        _ => Term::Sub(Box::new(a), Box::new(b)),
    }
}

fn fold_mult(a: Term, b: Term) -> (r: Term)
    requires
        folded_mult(a, b) is Some,
    ensures
        Some(r) == folded_mult(a, b),
{
    match (a.as_const(), b.as_const()) {
        (Some(x), Some(y)) => Term::Const(x * y),
        _ => Term::Mult(Box::new(a), Box::new(b)),
    }
}

fn fold_neg(a: Term) -> (r: Term)
    requires
        folded_neg(a) is Some,
    ensures
        Some(r) == folded_neg(a),
{
    match a.as_const() {
        Some(x) => Term::Const(-x),
        None => Term::Neg(Box::new(a)),
    }
}

fn fold_not(a: Term) -> (r: Term)
    requires
        folded_test(a, Term::Not(Box::new(a))) is Some,
    ensures
        Some(r) == folded_test(a, Term::Not(Box::new(a))),
{
    match a.as_const() {
        Some(x) => Term::Const(
            if x == 0 {
                1
            } else {
                0
            },
        ),
        None => Term::Not(Box::new(a)),
    }
}

fn fold_is_zero(a: Term) -> (r: Term)
    requires
        folded_test(a, Term::IsZero(Box::new(a))) is Some,
    ensures
        Some(r) == folded_test(a, Term::IsZero(Box::new(a))),
{
    match a.as_const() {
        Some(x) => Term::Const(
            if x == 0 {
                1
            } else {
                0
            },
        ),
        None => Term::IsZero(Box::new(a)),
    }
}

fn coeff_term(coeff: &Q, t: Term) -> (r: Term)
    ensures
        r == scaled_term(*coeff, t),
{
    if *coeff == Q::from_integer(1) {
        t
    } else if *coeff == Q::from_integer(-1) {
        Term::Neg(Box::new(t))
    } else {
        Term::Mult(Box::new(Term::of_q(*coeff)), Box::new(t))
    }
}

fn add_term(acc: Option<Term>, t: Term) -> (r: Term)
    requires
        added_term(acc, t) is Some,
    ensures
        Some(r) == added_term(acc, t),
{
    match acc {
        None => t,
        Some(a) => fold_add(a, t),
    }
}

fn start_term(q: &Q) -> (r: Option<Term>)
    ensures
        r == constant_part(*q),
{
    if !q.is_zero() {
        Some(Term::of_q(*q))
    } else {
        None
    }
}

fn term_or_zero(t: Option<Term>) -> (r: Term)
    ensures
        r == or_zero(t),
{
    match t {
        None => Term::Const(0),
        Some(t) => t,
    }
}

fn is_preferred_visible_var(lhs: AbstractValue, rhs: AbstractValue) -> (b: bool)
    ensures
        b == preferred(lhs, rhs),
{
    if lhs.is_unrestricted() && rhs.is_restricted() {
        true
    } else if lhs.is_restricted() && rhs.is_unrestricted() {
        false
    } else {
        let a: i128 = if lhs.0 < 0 {
            -(lhs.0 as i128)
        } else {
            lhs.0 as i128
        };
        let b: i128 = if rhs.0 < 0 {
            -(rhs.0 as i128)
        } else {
            rhs.0 as i128
        };
        a < b
    }
}

impl Phi {
    fn resolve_var(&self, v: AbstractValue) -> (r: Term)
        ensures
            r == resolved_var(self@, v),
    {
        let repr_v = self.get_repr(v);
        match self.linear_eqs.get(&repr_v) {
            Some(lin) => match lin.get_as_const() {
                Some(q) => {
                    if q.is_integer() {
                        return Term::Const(q.numer());
                    }
                },
                None => {},
            },
            None => {},
        }
        Term::Var(repr_v)
    }

    /// Resolve a term by substituting canonical reps and known constants.
    pub fn resolve_term(&self, t: &Term) -> (r: Term)
        requires
            rebuilt(*t, resolving(self@), false) is Some,
        ensures
            Some(r) == rebuilt(*t, resolving(self@), false),
        decreases t,
    {
        match t {
            Term::Var(v) => self.resolve_var(*v),
            Term::Const(_) | Term::Rational(_) => t.clone(),
            Term::Add(a, b) => fold_add(self.resolve_term(a), self.resolve_term(b)),
            Term::Sub(a, b) => fold_sub(self.resolve_term(a), self.resolve_term(b)),
            Term::Mult(a, b) => fold_mult(self.resolve_term(a), self.resolve_term(b)),
            Term::Neg(a) => fold_neg(self.resolve_term(a)),
            Term::Not(a) => Term::Not(Box::new(self.resolve_term(a))),
            Term::IsZero(a) => fold_is_zero(self.resolve_term(a)),
        }
    }

    /// Resolve an atom by substituting known constants and representatives.
    pub fn resolve_atom(&self, atom: &Atom) -> (r: Atom)
        requires
            resolved_atom(self@, *atom) is Some,
        ensures
            Some(r) == resolved_atom(self@, *atom),
    {
        let (a, b) = atom.sides();
        atom.with_sides(self.resolve_term(a), self.resolve_term(b))
    }

    fn lin_to_condition_term(&self, lin: &LinArith) -> (r: Term)
        requires
            condition_sum(self@, lin@.vars, constant_part(lin@.c)) is Some,
        ensures
            Some(r) == condition_sum(self@, lin@.vars, constant_part(lin@.c)),
    {
        let mut result = start_term(&lin.constant);
        let ghost s = lin@.vars;
        let mut i: usize = 0;
        assert(s.skip(0) =~= s);
        while i < lin.vars.len()
            invariant
                i <= s.len(),
                s == lin@.vars,
                condition_sum(self@, s.skip(i as int), result) is Some,
                condition_sum(self@, s.skip(i as int), result) == condition_sum(
                    self@,
                    s,
                    constant_part(lin@.c),
                ),
            decreases s.len() - i,
        {
            proof {
                assert(s.skip(i as int)[0] == s[i as int]);
                assert(s.skip(i as int).drop_first() =~= s.skip(i + 1));
            }
            let dep_term = Term::Var(self.get_repr(*lin.vars.key_at(i)));
            result = Some(add_term(result, coeff_term(lin.vars.value_at(i), dep_term)));
            i = i + 1;
        }
        term_or_zero(result)
    }

    /// The solution for `r` of the first equation that mentions it.
    fn solution_from_equations(&self, r: AbstractValue) -> (res: Option<LinArith>)
        requires
            first_solution(self@.lin, r) is Some,
        ensures
            match res {
                None => first_solution(self@.lin, r) == Some(None::<Lin>),
                Some(l) => first_solution(self@.lin, r) == Some(Some(l@)),
            },
    {
        let ghost s = self@.lin;
        let mut i: usize = 0;
        assert(s.skip(0) =~= s);
        while i < self.linear_eqs.len()
            invariant
                i <= s.len(),
                s == self@.lin,
                first_solution(s.skip(i as int), r) is Some,
                first_solution(s.skip(i as int), r) == first_solution(s, r),
            decreases s.len() - i,
        {
            proof {
                assert(s.skip(i as int)[0] == s[i as int]);
                assert(s.skip(i as int).drop_first() =~= s.skip(i + 1));
            }
            let lin = self.linear_eqs.value_at(i);
            match lin.get_coefficient(r) {
                None => {},
                Some(coeff) => {
                    let coeff = *coeff;
                    let mut equation = LinArith::of_var(*self.linear_eqs.key_at(i)).sub(lin);
                    if equation.vars.contains_key(&r) {
                        equation.vars.remove(&r);
                        let scale = Q::from_integer(1).over(&coeff);
                        return Some(equation.mult_scalar(&scale));
                    }
                },
            }
            i = i + 1;
        }
        None
    }

    fn condition_term_of_var(&self, v: AbstractValue) -> (r: Term)
        requires
            condition_var(self@, v) is Some,
        ensures
            Some(r) == condition_var(self@, v),
    {
        let repr_v = self.get_repr(v);
        if self.linear_eqs.contains_key(&repr_v) {
            self.resolve_var(v)
        } else {
            match self.solution_from_equations(repr_v) {
                Some(solution) => self.lin_to_condition_term(&solution),
                None => Term::Var(repr_v),
            }
        }
    }

    fn resolve_condition_term(&self, t: &Term) -> (r: Term)
        requires
            rebuilt(*t, condition_resolving(self@), true) is Some,
        ensures
            Some(r) == rebuilt(*t, condition_resolving(self@), true),
        decreases t,
    {
        match t {
            Term::Var(v) => self.condition_term_of_var(*v),
            Term::Const(_) | Term::Rational(_) => t.clone(),
            Term::Add(a, b) => fold_add(
                self.resolve_condition_term(a),
                self.resolve_condition_term(b),
            ),
            Term::Sub(a, b) => fold_sub(
                self.resolve_condition_term(a),
                self.resolve_condition_term(b),
            ),
            Term::Mult(a, b) => fold_mult(
                self.resolve_condition_term(a),
                self.resolve_condition_term(b),
            ),
            Term::Neg(a) => fold_neg(self.resolve_condition_term(a)),
            Term::Not(a) => fold_not(self.resolve_condition_term(a)),
            Term::IsZero(a) => fold_is_zero(self.resolve_condition_term(a)),
        }
    }

    /// Normalize an atom against the current phi without recording it.
    pub fn normalize_condition_atom(&self, atom: &Atom) -> (r: Atom)
        requires
            normalized_condition(self@, *atom) is Some,
        ensures
            Some(r) == normalized_condition(self@, *atom),
    {
        let (a, b) = atom.sides();
        atom.with_sides(self.resolve_condition_term(a), self.resolve_condition_term(b))
    }

    fn visible_summary_var(&self, v: AbstractValue, keep: &ValueSet) -> (r: Option<AbstractValue>)
        ensures
            r == visible_var(self@, keep@, v),
    {
        if keep.contains(&v) {
            return Some(v);
        }
        let repr_v = self.get_repr(v);
        let ghost s = keep@;
        let mut best: Option<AbstractValue> = None;
        let mut i: usize = 0;
        assert(s.skip(0) =~= s);
        while i < keep.len()
            invariant
                i <= s.len(),
                s == keep@,
                best_of(self@, s.skip(i as int), repr_v, best) == best_of(
                    self@,
                    s,
                    repr_v,
                    None,
                ),
            decreases s.len() - i,
        {
            proof {
                assert(s.skip(i as int)[0] == s[i as int]);
                assert(s.skip(i as int).drop_first() =~= s.skip(i + 1));
            }
            let candidate = *keep.at(i);
            if self.get_repr(candidate) == repr_v {
                best = match best {
                    None => Some(candidate),
                    Some(b) => if is_preferred_visible_var(candidate, b) {
                        Some(candidate)
                    } else {
                        Some(b)
                    },
                };
            }
            i = i + 1;
        }
        best
    }

    fn simplify_visible_linear_term(
        &self,
        v: AbstractValue,
        keep: &ValueSet,
        left: &mut OrdMap<AbstractValue, LinArith>,
    ) -> (r: Option<Term>)
        requires
            visible_term(self@, keep@, v, old(left)@) is Some,
        ensures
            Some(r) == visible_term(self@, keep@, v, old(left)@),
            final(left)@ == old(left)@,
        decreases old(left)@.len(), 0nat,
    {
        match self.visible_summary_var(v, keep) {
            Some(visible_var) => {
                return Some(Term::Var(visible_var));
            },
            None => {},
        }
        let repr_v = self.get_repr(v);
        let n: usize = left.len();
        proof {
            if lookup(left@, repr_v) is Some {
                lemma_put_back::<AbstractValue, Lin>(left@, repr_v);
            }
            lemma_lookup_has_key(left@, repr_v);
        }
        match left.remove(&repr_v) {
            None => {
                proof {
                    crate::ordered::lemma_del_absent(old(left)@, repr_v);
                }
                None
            },
            Some(lin) => {
                let r = self.simplify_visible_sum(&lin, keep, left);
                left.insert(repr_v, lin);
                r
            },
        }
    }

    fn simplify_visible_sum(
        &self,
        lin: &LinArith,
        keep: &ValueSet,
        left: &mut OrdMap<AbstractValue, LinArith>,
    ) -> (r: Option<Term>)
        requires
            visible_sum(
                self@,
                keep@,
                lin@.vars,
                constant_part(lin@.c),
                old(left)@,
            ) is Some,
        ensures
            Some(r) == visible_sum(
                self@,
                keep@,
                lin@.vars,
                constant_part(lin@.c),
                old(left)@,
            ),
            final(left)@ == old(left)@,
        decreases old(left)@.len(), lin@.vars.len() + 1,
    {
        let mut result = start_term(&lin.constant);
        let ghost s = lin@.vars;
        let mut i: usize = 0;
        assert(s.skip(0) =~= s);
        while i < lin.vars.len()
            invariant
                i <= s.len(),
                s == lin@.vars,
                left@ == old(left)@,
                visible_sum(self@, keep@, s.skip(i as int), result, left@) is Some,
                visible_sum(self@, keep@, s.skip(i as int), result, left@) == visible_sum(
                    self@,
                    keep@,
                    s,
                    constant_part(lin@.c),
                    left@,
                ),
            decreases s.len() - i,
        {
            proof {
                assert(s.skip(i as int)[0] == s[i as int]);
                assert(s.skip(i as int).drop_first() =~= s.skip(i + 1));
            }
            match self.simplify_visible_linear_term(*lin.vars.key_at(i), keep, left) {
                None => {
                    return None;
                },
                Some(dep_term) => {
                    result = Some(add_term(result, coeff_term(lin.vars.value_at(i), dep_term)));
                },
            }
            i = i + 1;
        }
        Some(term_or_zero(result))
    }

    fn summary_term_of_var(&self, v: AbstractValue, keep: &ValueSet) -> (r: Term)
        requires
            summary_var(self@, keep@, v) is Some,
        ensures
            Some(r) == summary_var(self@, keep@, v),
    {
        let mut left = self.linear_eqs.dup();
        match self.simplify_visible_linear_term(v, keep, &mut left) {
            Some(t) => t,
            None => self.resolve_var(v),
        }
    }

    fn simplify_summary_term(&self, t: &Term, keep: &ValueSet) -> (r: Term)
        requires
            rebuilt(*t, summarizing(self@, keep@), true) is Some,
        ensures
            Some(r) == rebuilt(*t, summarizing(self@, keep@), true),
        decreases t,
    {
        match t {
            Term::Var(v) => self.summary_term_of_var(*v, keep),
            Term::Const(_) | Term::Rational(_) => t.clone(),
            Term::Add(a, b) => fold_add(
                self.simplify_summary_term(a, keep),
                self.simplify_summary_term(b, keep),
            ),
            Term::Sub(a, b) => fold_sub(
                self.simplify_summary_term(a, keep),
                self.simplify_summary_term(b, keep),
            ),
            Term::Mult(a, b) => fold_mult(
                self.simplify_summary_term(a, keep),
                self.simplify_summary_term(b, keep),
            ),
            Term::Neg(a) => fold_neg(self.simplify_summary_term(a, keep)),
            Term::Not(a) => fold_not(self.simplify_summary_term(a, keep)),
            Term::IsZero(a) => fold_is_zero(self.simplify_summary_term(a, keep)),
        }
    }

    /// Summary-time condition simplification.
    ///
    /// Keep visible variables as written, but substitute other variables
    /// through the current phi so exported summaries do not remember dead
    /// alias or equality bookkeeping.
    pub fn simplify_condition_atom_for_summary(&self, atom: &Atom, keep: &ValueSet) -> (r: Atom)
        requires
            summarized_atom(self@, keep@, *atom) is Some,
        ensures
            Some(r) == summarized_atom(self@, keep@, *atom),
    {
        let (a, b) = atom.sides();
        atom.with_sides(self.simplify_summary_term(a, keep), self.simplify_summary_term(b, keep))
    }
}

} // verus!
