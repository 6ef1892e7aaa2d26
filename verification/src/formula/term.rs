//! Term expressions for the formula solver.
//!
//! Terms represent symbolic expressions over abstract values and constants.

use super::citv::in_i64;
use super::lin_arith::{is_mapping, mapping, renamed, Valuation};
use crate::abstract_value::AbstractValue;
use crate::ordered::{Comparison, Dup, OrdKey};
use crate::rational::{
    lemma_q_add, lemma_q_mul, lemma_q_neg, lemma_q_sub, lemma_q_tests, q_add, q_int, q_lt, q_mul,
    q_neg, q_sub, Q,
};
use crate::text::push_int;
use vstd::prelude::*;

verus! {

/// A term in the formula language.
#[derive(Debug, PartialEq, Eq, Hash)]
pub enum Term {
    /// An abstract value (variable).
    Var(AbstractValue),
    /// An integer constant.
    Const(i64),
    /// A non-integer rational constant. Integer-valued constants use `Const`
    /// instead.
    Rational(Q),
    /// Addition: t1 + t2.
    Add(Box<Term>, Box<Term>),
    /// Subtraction: t1 - t2.
    Sub(Box<Term>, Box<Term>),
    /// Multiplication: t1 * t2.
    Mult(Box<Term>, Box<Term>),
    /// Negation: -t.
    Neg(Box<Term>),
    /// Logical not: !t.
    Not(Box<Term>),
    /// Is-zero test: t == 0.
    IsZero(Box<Term>),
}

/// The position of the variant among the variants.
pub open spec fn term_rank(t: Term) -> int {
    match t {
        Term::Var(_) => 0,
        Term::Const(_) => 1,
        Term::Rational(_) => 2,
        Term::Add(_, _) => 3,
        Term::Sub(_, _) => 4,
        Term::Mult(_, _) => 5,
        Term::Neg(_) => 6,
        Term::Not(_) => 7,
        Term::IsZero(_) => 8,
    }
}

/// The order of terms: by variant, then by the parts from left to right.
pub open spec fn term_lt(a: Term, b: Term) -> bool
    decreases a,
{
    if term_rank(a) != term_rank(b) {
        term_rank(a) < term_rank(b)
    } else {
        match (a, b) {
            (Term::Var(x), Term::Var(y)) => x.0 < y.0,
            (Term::Const(x), Term::Const(y)) => x < y,
            (Term::Rational(x), Term::Rational(y)) => q_lt(x, y),
            (Term::Add(a1, a2), Term::Add(b1, b2)) => term_lt(*a1, *b1) || (a1 == b1 && term_lt(
                *a2,
                *b2,
            )),
            (Term::Sub(a1, a2), Term::Sub(b1, b2)) => term_lt(*a1, *b1) || (a1 == b1 && term_lt(
                *a2,
                *b2,
            )),
            (Term::Mult(a1, a2), Term::Mult(b1, b2)) => term_lt(*a1, *b1) || (a1 == b1 && term_lt(
                *a2,
                *b2,
            )),
            (Term::Neg(a1), Term::Neg(b1)) => term_lt(*a1, *b1),
            (Term::Not(a1), Term::Not(b1)) => term_lt(*a1, *b1),
            (Term::IsZero(a1), Term::IsZero(b1)) => term_lt(*a1, *b1),
            _ => false,
        }
    }
}

proof fn lemma_term_lt_irreflexive(a: Term)
    ensures
        !term_lt(a, a),
    decreases a,
{
    match a {
        Term::Rational(x) => Q::lt_irreflexive(x),
        Term::Add(x, y) | Term::Sub(x, y) | Term::Mult(x, y) => {
            lemma_term_lt_irreflexive(*x);
            lemma_term_lt_irreflexive(*y);
        },
        Term::Neg(x) | Term::Not(x) | Term::IsZero(x) => lemma_term_lt_irreflexive(*x),
        _ => {},
    }
}

proof fn lemma_term_lt_transitive(a: Term, b: Term, c: Term)
    requires
        term_lt(a, b),
        term_lt(b, c),
    ensures
        term_lt(a, c),
    decreases a,
{
    if term_rank(a) == term_rank(b) && term_rank(b) == term_rank(c) {
        match (a, b, c) {
            (Term::Rational(x), Term::Rational(y), Term::Rational(z)) => Q::lt_transitive(x, y, z),
            (Term::Add(a1, a2), Term::Add(b1, b2), Term::Add(c1, c2)) => {
                if term_lt(*a1, *b1) && term_lt(*b1, *c1) {
                    lemma_term_lt_transitive(*a1, *b1, *c1);
                } else if a1 == b1 && b1 == c1 {
                    lemma_term_lt_irreflexive(*a1);
                    lemma_term_lt_transitive(*a2, *b2, *c2);
                }
            },
            (Term::Sub(a1, a2), Term::Sub(b1, b2), Term::Sub(c1, c2)) => {
                if term_lt(*a1, *b1) && term_lt(*b1, *c1) {
                    lemma_term_lt_transitive(*a1, *b1, *c1);
                } else if a1 == b1 && b1 == c1 {
                    lemma_term_lt_irreflexive(*a1);
                    lemma_term_lt_transitive(*a2, *b2, *c2);
                }
            },
            (Term::Mult(a1, a2), Term::Mult(b1, b2), Term::Mult(c1, c2)) => {
                if term_lt(*a1, *b1) && term_lt(*b1, *c1) {
                    lemma_term_lt_transitive(*a1, *b1, *c1);
                } else if a1 == b1 && b1 == c1 {
                    lemma_term_lt_irreflexive(*a1);
                    lemma_term_lt_transitive(*a2, *b2, *c2);
                }
            },
            (Term::Neg(a1), Term::Neg(b1), Term::Neg(c1)) => {
                lemma_term_lt_transitive(*a1, *b1, *c1);
            },
            (Term::Not(a1), Term::Not(b1), Term::Not(c1)) => {
                lemma_term_lt_transitive(*a1, *b1, *c1);
            },
            (Term::IsZero(a1), Term::IsZero(b1), Term::IsZero(c1)) => {
                lemma_term_lt_transitive(*a1, *b1, *c1);
            },
            _ => {},
        }
    }
}

proof fn lemma_term_lt_total(a: Term, b: Term)
    ensures
        term_lt(a, b) || a == b || term_lt(b, a),
    decreases a,
{
    if term_rank(a) == term_rank(b) {
        match (a, b) {
            (Term::Rational(x), Term::Rational(y)) => Q::lt_total(x, y),
            (Term::Add(a1, a2), Term::Add(b1, b2)) => {
                lemma_term_lt_total(*a1, *b1);
                lemma_term_lt_total(*a2, *b2);
            },
            (Term::Sub(a1, a2), Term::Sub(b1, b2)) => {
                lemma_term_lt_total(*a1, *b1);
                lemma_term_lt_total(*a2, *b2);
            },
            (Term::Mult(a1, a2), Term::Mult(b1, b2)) => {
                lemma_term_lt_total(*a1, *b1);
                lemma_term_lt_total(*a2, *b2);
            },
            (Term::Neg(a1), Term::Neg(b1)) => lemma_term_lt_total(*a1, *b1),
            (Term::Not(a1), Term::Not(b1)) => lemma_term_lt_total(*a1, *b1),
            (Term::IsZero(a1), Term::IsZero(b1)) => lemma_term_lt_total(*a1, *b1),
            _ => {},
        }
    }
}

impl View for Term {
    type V = Term;

    open spec fn view(&self) -> Term {
        *self
    }
}

impl Clone for Term {
    fn clone(&self) -> (r: Self)
        ensures
            r == *self,
        decreases self,
    {
        match self {
            Term::Var(v) => Term::Var(*v),
            Term::Const(c) => Term::Const(*c),
            Term::Rational(q) => Term::Rational(*q),
            Term::Add(a, b) => Term::Add(Box::new((**a).clone()), Box::new((**b).clone())),
            Term::Sub(a, b) => Term::Sub(Box::new((**a).clone()), Box::new((**b).clone())),
            Term::Mult(a, b) => Term::Mult(Box::new((**a).clone()), Box::new((**b).clone())),
            Term::Neg(a) => Term::Neg(Box::new((**a).clone())),
            Term::Not(a) => Term::Not(Box::new((**a).clone())),
            Term::IsZero(a) => Term::IsZero(Box::new((**a).clone())),
        }
    }
}

impl Dup for Term {
    fn dup(&self) -> (r: Self) {
        self.clone()
    }
}

fn compare_i64(a: i64, b: i64) -> (c: Comparison)
    ensures
        match c {
            Comparison::Less => a < b,
            Comparison::Equal => a == b,
            Comparison::Greater => a > b,
        },
{
    if a < b {
        Comparison::Less
    } else if a == b {
        Comparison::Equal
    } else {
        Comparison::Greater
    }
}

fn term_position(t: &Term) -> (r: i64)
    ensures
        r == term_rank(*t),
{
    match t {
        Term::Var(_) => 0,
        Term::Const(_) => 1,
        Term::Rational(_) => 2,
        Term::Add(_, _) => 3,
        Term::Sub(_, _) => 4,
        Term::Mult(_, _) => 5,
        Term::Neg(_) => 6,
        Term::Not(_) => 7,
        Term::IsZero(_) => 8,
    }
}

fn compare_terms(a: &Term, b: &Term) -> (c: Comparison)
    ensures
        match c {
            Comparison::Less => term_lt(*a, *b),
            Comparison::Equal => *a == *b,
            Comparison::Greater => term_lt(*b, *a),
        },
    decreases a,
{
    match (a, b) {
        (Term::Var(x), Term::Var(y)) => compare_i64(x.0, y.0),
        (Term::Const(x), Term::Const(y)) => compare_i64(*x, *y),
        (Term::Rational(x), Term::Rational(y)) => x.compare(y),
        (Term::Add(a1, a2), Term::Add(b1, b2)) => match compare_terms(a1, b1) {
            Comparison::Equal => compare_terms(a2, b2),
            c => c,
        },
        (Term::Sub(a1, a2), Term::Sub(b1, b2)) => match compare_terms(a1, b1) {
            Comparison::Equal => compare_terms(a2, b2),
            c => c,
        },
        (Term::Mult(a1, a2), Term::Mult(b1, b2)) => match compare_terms(a1, b1) {
            Comparison::Equal => compare_terms(a2, b2),
            c => c,
        },
        (Term::Neg(a1), Term::Neg(b1)) => compare_terms(a1, b1),
        (Term::Not(a1), Term::Not(b1)) => compare_terms(a1, b1),
        (Term::IsZero(a1), Term::IsZero(b1)) => compare_terms(a1, b1),
        _ => {
            if term_position(a) < term_position(b) {
                Comparison::Less
            } else {
                Comparison::Greater
            }
        },
    }
}

impl OrdKey for Term {
    open spec fn lt(a: Term, b: Term) -> bool {
        term_lt(a, b)
    }

    proof fn lt_irreflexive(a: Term) {
        lemma_term_lt_irreflexive(a);
        assert(Self::lt(a, a) == term_lt(a, a));
    }

    proof fn lt_transitive(a: Term, b: Term, c: Term) {
        lemma_term_lt_transitive(a, b, c);
    }

    proof fn lt_total(a: Term, b: Term) {
        lemma_term_lt_total(a, b);
    }

    fn compare(&self, other: &Self) -> (c: Comparison) {
        compare_terms(self, other)
    }
}

/// Folding two constants by an operation with result `v`; the outer `None`
/// stands for a result that is no 64-bit integer.
pub open spec fn fold_two(
    a: Option<Option<i64>>,
    b: Option<Option<i64>>,
    op: spec_fn(int, int) -> int,
) -> Option<Option<i64>> {
    match a {
        None => None,
        Some(None) => Some(None),
        Some(Some(x)) => match b {
            None => None,
            Some(None) => Some(None),
            Some(Some(y)) => if in_i64(op(x as int, y as int)) {
                Some(Some(op(x as int, y as int) as i64))
            } else {
                None
            },
        },
    }
}

pub open spec fn int_sum() -> spec_fn(int, int) -> int {
    |x: int, y: int| x + y
}

pub open spec fn int_difference() -> spec_fn(int, int) -> int {
    |x: int, y: int| x - y
}

pub open spec fn int_product() -> spec_fn(int, int) -> int {
    |x: int, y: int| x * y
}

/// One for zero, zero for anything else.
pub open spec fn zero_test(c: i64) -> i64 {
    if c == 0 {
        1
    } else {
        0
    }
}

/// The integer a term folds to, if it has no variables and no non-integer
/// constant. The outer `None` stands for an intermediate result that is no
/// 64-bit integer.
pub open spec fn term_const(t: Term) -> Option<Option<i64>>
    decreases t,
{
    match t {
        Term::Const(c) => Some(Some(c)),
        Term::Rational(_) => Some(None),
        Term::Add(a, b) => fold_two(term_const(*a), term_const(*b), int_sum()),
        Term::Sub(a, b) => fold_two(term_const(*a), term_const(*b), int_difference()),
        Term::Mult(a, b) => fold_two(term_const(*a), term_const(*b), int_product()),
        Term::Neg(a) => match term_const(*a) {
            None => None,
            Some(None) => Some(None),
            Some(Some(x)) => if x == i64::MIN {
                None
            } else {
                Some(Some((-x) as i64))
            },
        },
        Term::Not(a) => match term_const(*a) {
            None => None,
            Some(None) => Some(None),
            Some(Some(x)) => Some(Some(zero_test(x))),
        },
        Term::IsZero(a) => match term_const(*a) {
            None => None,
            Some(None) => Some(None),
            Some(Some(x)) => Some(Some(zero_test(x))),
        },
        Term::Var(_) => Some(None),
    }
}

pub open spec fn fold_two_q(
    a: Option<Option<Q>>,
    b: Option<Option<Q>>,
    op: spec_fn(Q, Q) -> Option<Q>,
) -> Option<Option<Q>> {
    match a {
        None => None,
        Some(None) => Some(None),
        Some(Some(x)) => match b {
            None => None,
            Some(None) => Some(None),
            Some(Some(y)) => match op(x, y) {
                None => None,
                Some(r) => Some(Some(r)),
            },
        },
    }
}

pub open spec fn q_zero_test(q: Q) -> Q {
    q_int(
        if q.numer == 0 {
            1
        } else {
            0
        },
    )
}

/// The rational a term folds to, if it has no variables. The outer `None`
/// stands for a result that does not fit.
pub open spec fn term_q(t: Term) -> Option<Option<Q>>
    decreases t,
{
    match t {
        Term::Const(c) => Some(Some(q_int(c))),
        Term::Rational(q) => Some(Some(q)),
        Term::Add(a, b) => fold_two_q(term_q(*a), term_q(*b), |x: Q, y: Q| q_add(x, y)),
        Term::Sub(a, b) => fold_two_q(term_q(*a), term_q(*b), |x: Q, y: Q| q_sub(x, y)),
        Term::Mult(a, b) => fold_two_q(term_q(*a), term_q(*b), |x: Q, y: Q| q_mul(x, y)),
        Term::Neg(a) => match term_q(*a) {
            None => None,
            Some(None) => Some(None),
            Some(Some(x)) => match q_neg(x) {
                None => None,
                Some(r) => Some(Some(r)),
            },
        },
        Term::Not(a) => match term_q(*a) {
            None => None,
            Some(None) => Some(None),
            Some(Some(x)) => Some(Some(q_zero_test(x))),
        },
        Term::IsZero(a) => match term_q(*a) {
            None => None,
            Some(None) => Some(None),
            Some(Some(x)) => Some(Some(q_zero_test(x))),
        },
        Term::Var(_) => Some(None),
    }
}

/// The constant term for a rational: `Const` for an integer, `Rational`
/// otherwise.
pub open spec fn term_of_q(q: Q) -> Term {
    if q.denom == 1 {
        Term::Const(q.numer)
    } else {
        Term::Rational(q)
    }
}

/// The variables of a term, from left to right.
pub open spec fn term_vars(t: Term) -> Seq<AbstractValue>
    decreases t,
{
    match t {
        Term::Var(v) => seq![v],
        Term::Const(_) | Term::Rational(_) => Seq::empty(),
        Term::Add(a, b) => term_vars(*a) + term_vars(*b),
        Term::Sub(a, b) => term_vars(*a) + term_vars(*b),
        Term::Mult(a, b) => term_vars(*a) + term_vars(*b),
        Term::Neg(a) => term_vars(*a),
        Term::Not(a) => term_vars(*a),
        Term::IsZero(a) => term_vars(*a),
    }
}

/// The term with every variable `v` replaced by `f(v)`.
pub open spec fn term_map(t: Term, f: spec_fn(AbstractValue) -> Term) -> Term
    decreases t,
{
    match t {
        Term::Var(v) => f(v),
        Term::Const(_) | Term::Rational(_) => t,
        Term::Add(a, b) => Term::Add(Box::new(term_map(*a, f)), Box::new(term_map(*b, f))),
        Term::Sub(a, b) => Term::Sub(Box::new(term_map(*a, f)), Box::new(term_map(*b, f))),
        Term::Mult(a, b) => Term::Mult(Box::new(term_map(*a, f)), Box::new(term_map(*b, f))),
        Term::Neg(a) => Term::Neg(Box::new(term_map(*a, f))),
        Term::Not(a) => Term::Not(Box::new(term_map(*a, f))),
        Term::IsZero(a) => Term::IsZero(Box::new(term_map(*a, f))),
    }
}

pub open spec fn to_var(f: spec_fn(AbstractValue) -> AbstractValue) -> spec_fn(
    AbstractValue,
) -> Term {
    |v: AbstractValue| Term::Var(f(v))
}

pub open spec fn replacing(x: AbstractValue, t: Term) -> spec_fn(AbstractValue) -> Term {
    |v: AbstractValue|
        if v == x {
            t
        } else {
            Term::Var(v)
        }
}

/// The term with `x` replaced by `r`.
pub open spec fn term_subst(t: Term, x: AbstractValue, r: Term) -> Term {
    term_map(t, replacing(x, r))
}

impl Term {
    pub fn var(v: AbstractValue) -> (r: Self)
        ensures
            r == Term::Var(v),
    {
        Term::Var(v)
    }

    /// Build a constant term from a rational, choosing `Const` for
    /// integer-valued rationals and `Rational` otherwise.
    pub fn of_q(q: Q) -> (r: Self)
        ensures
            r == term_of_q(q),
    {
        if q.is_integer() {
            Term::Const(q.numer())
        } else {
            Term::Rational(q)
        }
    }

    pub fn equals(&self, other: &Term) -> (b: bool)
        ensures
            b == (*self == *other),
    {
        proof {
            lemma_term_lt_irreflexive(*self);
        }
        matches!(compare_terms(self, other), Comparison::Equal)
    }

    /// Try to extract the integer constant value of a term. Non-integer
    /// rationals return `None`.
    pub fn as_const(&self) -> (r: Option<i64>)
        requires
            term_const(*self) is Some,
        ensures
            Some(r) == term_const(*self),
        decreases self,
    {
        match self {
            Term::Const(c) => Some(*c),
            Term::Rational(_) => None,
            Term::Add(a, b) => match a.as_const() {
                None => None,
                Some(x) => match b.as_const() {
                    None => None,
                    Some(y) => Some(x + y),
                },
            },
            Term::Sub(a, b) => match a.as_const() {
                None => None,
                Some(x) => match b.as_const() {
                    None => None,
                    Some(y) => Some(x - y),
                },
            },
            Term::Mult(a, b) => match a.as_const() {
                None => None,
                Some(x) => match b.as_const() {
                    None => None,
                    Some(y) => Some(x * y),
                },
            },
            Term::Neg(a) => match a.as_const() {
                None => None,
                Some(x) => Some(-x),
            },
            Term::Not(a) => match a.as_const() {
                None => None,
                Some(x) => Some(
                    if x == 0 {
                        1
                    } else {
                        0
                    },
                ),
            },
            Term::IsZero(a) => match a.as_const() {
                None => None,
                Some(x) => Some(
                    if x == 0 {
                        1
                    } else {
                        0
                    },
                ),
            },
            Term::Var(_) => None,
        }
    }

    /// Try to extract the exact rational value of a term, preserving
    /// non-integer constants (unlike [`Term::as_const`]).
    pub fn as_q(&self) -> (r: Option<Q>)
        requires
            term_q(*self) is Some,
        ensures
            Some(r) == term_q(*self),
        decreases self,
    {
        match self {
            Term::Const(c) => Some(Q::from_integer(*c)),
            Term::Rational(q) => Some(*q),
            Term::Add(a, b) => match a.as_q() {
                None => None,
                Some(x) => match b.as_q() {
                    None => None,
                    Some(y) => Some(x.plus(&y)),
                },
            },
            Term::Sub(a, b) => match a.as_q() {
                None => None,
                Some(x) => match b.as_q() {
                    None => None,
                    Some(y) => Some(x.minus(&y)),
                },
            },
            Term::Mult(a, b) => match a.as_q() {
                None => None,
                Some(x) => match b.as_q() {
                    None => None,
                    Some(y) => Some(x.times(&y)),
                },
            },
            Term::Neg(a) => match a.as_q() {
                None => None,
                Some(x) => Some(x.negated()),
            },
            Term::Not(a) => match a.as_q() {
                None => None,
                Some(x) => Some(
                    if x.is_zero() {
                        Q::one()
                    } else {
                        Q::zero()
                    },
                ),
            },
            Term::IsZero(a) => match a.as_q() {
                None => None,
                Some(x) => Some(
                    if x.is_zero() {
                        Q::one()
                    } else {
                        Q::zero()
                    },
                ),
            },
            Term::Var(_) => None,
        }
    }

    /// Collect all variables mentioned in this term.
    pub fn vars(&self) -> (r: Vec<AbstractValue>)
        ensures
            r@ == term_vars(*self),
    {
        let mut result: Vec<AbstractValue> = Vec::new();
        self.collect_vars(&mut result);
        assert(Seq::<AbstractValue>::empty() + term_vars(*self) =~= term_vars(*self));
        result
    }

    pub fn collect_vars(&self, out: &mut Vec<AbstractValue>)
        ensures
            final(out)@ == old(out)@ + term_vars(*self),
        decreases self,
    {
        let ghost before = out@;
        match self {
            Term::Var(v) => {
                out.push(*v);
                assert(out@ =~= before + term_vars(*self));
            },
            Term::Const(_) | Term::Rational(_) => {
                assert(out@ =~= before + term_vars(*self));
            },
            Term::Add(a, b) | Term::Sub(a, b) | Term::Mult(a, b) => {
                a.collect_vars(out);
                b.collect_vars(out);
                assert(out@ =~= before + term_vars(*self));
            },
            Term::Neg(t) | Term::Not(t) | Term::IsZero(t) => t.collect_vars(out),
        }
    }

    /// Translate all variables using a mapping function.
    pub fn translate<F: Fn(AbstractValue) -> AbstractValue>(&self, f: &F) -> (r: Term)
        requires
            is_mapping(*f),
        ensures
            r == term_map(*self, to_var(mapping(*f))),
        decreases self,
    {
        match self {
            Term::Var(v) => {
                assert(call_requires(*f, (*v,)));
                Term::Var(f(*v))
            },
            Term::Const(_) | Term::Rational(_) => self.clone(),
            Term::Add(a, b) => Term::Add(Box::new(a.translate(f)), Box::new(b.translate(f))),
            Term::Sub(a, b) => Term::Sub(Box::new(a.translate(f)), Box::new(b.translate(f))),
            Term::Mult(a, b) => Term::Mult(Box::new(a.translate(f)), Box::new(b.translate(f))),
            Term::Neg(t) => Term::Neg(Box::new(t.translate(f))),
            Term::Not(t) => Term::Not(Box::new(t.translate(f))),
            Term::IsZero(t) => Term::IsZero(Box::new(t.translate(f))),
        }
    }

    /// Substitute a variable with a term.
    pub fn subst_var(&self, old_var: AbstractValue, replacement: &Term) -> (r: Term)
        ensures
            r == term_subst(*self, old_var, *replacement),
        decreases self,
    {
        match self {
            Term::Var(v) => if *v == old_var {
                replacement.clone()
            } else {
                Term::Var(*v)
            },
            Term::Const(_) | Term::Rational(_) => self.clone(),
            Term::Add(a, b) => Term::Add(
                Box::new(a.subst_var(old_var, replacement)),
                Box::new(b.subst_var(old_var, replacement)),
            ),
            Term::Sub(a, b) => Term::Sub(
                Box::new(a.subst_var(old_var, replacement)),
                Box::new(b.subst_var(old_var, replacement)),
            ),
            Term::Mult(a, b) => Term::Mult(
                Box::new(a.subst_var(old_var, replacement)),
                Box::new(b.subst_var(old_var, replacement)),
            ),
            Term::Neg(t) => Term::Neg(Box::new(t.subst_var(old_var, replacement))),
            Term::Not(t) => Term::Not(Box::new(t.subst_var(old_var, replacement))),
            Term::IsZero(t) => Term::IsZero(Box::new(t.subst_var(old_var, replacement))),
        }
    }

    /// How the term is shown.
    pub open spec fn text(self) -> Seq<char>
        decreases self,
    {
        match self {
            Term::Var(v) => v.text(),
            Term::Const(c) => crate::text::int_text(c as int),
            Term::Rational(q) => q.text(),
            Term::Add(a, b) => "("@ + (*a).text() + " + "@ + (*b).text() + ")"@,
            Term::Sub(a, b) => "("@ + (*a).text() + " - "@ + (*b).text() + ")"@,
            Term::Mult(a, b) => "("@ + (*a).text() + " * "@ + (*b).text() + ")"@,
            Term::Neg(t) => "-"@ + (*t).text(),
            Term::Not(t) => "!"@ + (*t).text(),
            Term::IsZero(t) => "("@ + (*t).text() + " == 0)"@,
        }
    }

    pub fn push_text(&self, out: &mut String)
        ensures
            final(out)@ == old(out)@ + self.text(),
        decreases self,
    {
        let ghost before = out@;
        match self {
            Term::Var(v) => v.push_text(out),
            Term::Const(c) => push_int(out, *c),
            Term::Rational(q) => q.push_text(out),
            Term::Add(a, b) => {
                out.append("(");
                a.push_text(out);
                out.append(" + ");
                b.push_text(out);
                out.append(")");
            },
            Term::Sub(a, b) => {
                out.append("(");
                a.push_text(out);
                out.append(" - ");
                b.push_text(out);
                out.append(")");
            },
            Term::Mult(a, b) => {
                out.append("(");
                a.push_text(out);
                out.append(" * ");
                b.push_text(out);
                out.append(")");
            },
            Term::Neg(t) => {
                out.append("-");
                t.push_text(out);
            },
            Term::Not(t) => {
                out.append("!");
                t.push_text(out);
            },
            Term::IsZero(t) => {
                out.append("(");
                t.push_text(out);
                out.append(" == 0)");
            },
        }
        assert(out@ =~= before + self.text());
    }

    pub fn to_string(&self) -> (s: String)
        ensures
            s@ == self.text(),
    {
        let mut s = String::new();
        self.push_text(&mut s);
        assert(Seq::<char>::empty() + self.text() =~= self.text());
        s
    }
}

/// The number a term stands for; the tests give one or zero.
pub open spec fn term_value(t: Term, rho: Valuation) -> real
    decreases t,
{
    match t {
        Term::Var(v) => rho(v),
        Term::Const(c) => c as real,
        Term::Rational(q) => q.value(),
        Term::Add(a, b) => term_value(*a, rho) + term_value(*b, rho),
        Term::Sub(a, b) => term_value(*a, rho) - term_value(*b, rho),
        Term::Mult(a, b) => term_value(*a, rho) * term_value(*b, rho),
        Term::Neg(a) => -term_value(*a, rho),
        Term::Not(a) | Term::IsZero(a) => if term_value(*a, rho) == 0real {
            1real
        } else {
            0real
        },
    }
}

/// Every rational constant is in lowest terms.
pub open spec fn term_wf(t: Term) -> bool
    decreases t,
{
    match t {
        Term::Var(_) | Term::Const(_) => true,
        Term::Rational(q) => q.wf(),
        Term::Add(a, b) => term_wf(*a) && term_wf(*b),
        Term::Sub(a, b) => term_wf(*a) && term_wf(*b),
        Term::Mult(a, b) => term_wf(*a) && term_wf(*b),
        Term::Neg(a) => term_wf(*a),
        Term::Not(a) => term_wf(*a),
        Term::IsZero(a) => term_wf(*a),
    }
}

/// A term that folds to an integer has that value in every valuation.
pub proof fn law_term_const(t: Term, rho: Valuation)
    ensures
        term_const(t) matches Some(Some(c)) ==> term_value(t, rho) == c as real,
    decreases t,
{
    match t {
        Term::Add(a, b) | Term::Sub(a, b) | Term::Mult(a, b) => {
            law_term_const(*a, rho);
            law_term_const(*b, rho);
            if let (Some(Some(x)), Some(Some(y))) = (term_const(*a), term_const(*b)) {
                let (xi, yi) = (x as int, y as int);
                assert((xi * yi) as real == (xi as real) * (yi as real)) by (nonlinear_arith);
            }
        },
        Term::Neg(a) | Term::Not(a) | Term::IsZero(a) => {
            law_term_const(*a, rho);
        },
        _ => {},
    }
}

/// A term that folds to a rational has that value in every valuation.
pub proof fn law_term_q(t: Term, rho: Valuation)
    requires
        term_wf(t),
    ensures
        term_q(t) matches Some(Some(q)) ==> q.wf() && term_value(t, rho) == q.value(),
    decreases t,
{
    match t {
        Term::Const(c) => {
            crate::rational::lemma_int_wf(c);
            assert((c as real) / (1i64 as real) == c as real) by (nonlinear_arith);
        },
        Term::Add(a, b) => {
            law_term_q(*a, rho);
            law_term_q(*b, rho);
            if let (Some(Some(x)), Some(Some(y))) = (term_q(*a), term_q(*b)) {
                if q_add(x, y) is Some {
                    lemma_q_add(x, y);
                }
            }
        },
        Term::Sub(a, b) => {
            law_term_q(*a, rho);
            law_term_q(*b, rho);
            if let (Some(Some(x)), Some(Some(y))) = (term_q(*a), term_q(*b)) {
                if q_sub(x, y) is Some {
                    lemma_q_sub(x, y);
                }
            }
        },
        Term::Mult(a, b) => {
            law_term_q(*a, rho);
            law_term_q(*b, rho);
            if let (Some(Some(x)), Some(Some(y))) = (term_q(*a), term_q(*b)) {
                if q_mul(x, y) is Some {
                    lemma_q_mul(x, y);
                }
            }
        },
        Term::Neg(a) => {
            law_term_q(*a, rho);
            if let Some(Some(x)) = term_q(*a) {
                if q_neg(x) is Some {
                    lemma_q_neg(x);
                }
            }
        },
        Term::Not(a) | Term::IsZero(a) => {
            law_term_q(*a, rho);
            if let Some(Some(x)) = term_q(*a) {
                lemma_q_tests(x);
            }
            crate::rational::lemma_int_wf(0);
            crate::rational::lemma_int_wf(1);
            lemma_q_tests(q_int(0));
            lemma_q_tests(q_int(1));
        },
        _ => {},
    }
}

pub proof fn lemma_term_of_q(q: Q, rho: Valuation)
    requires
        q.wf(),
    ensures
        term_value(term_of_q(q), rho) == q.value(),
        term_wf(term_of_q(q)),
{
    let n = q.numer as real;
    assert(n / (1i64 as real) == n) by (nonlinear_arith);
}

/// Replacing variables by terms is evaluating the variables by those terms.
pub proof fn law_term_map(t: Term, f: spec_fn(AbstractValue) -> Term, rho: Valuation)
    ensures
        term_value(term_map(t, f), rho) == term_value(
            t,
            |v: AbstractValue| term_value(f(v), rho),
        ),
    decreases t,
{
    match t {
        Term::Add(a, b) | Term::Sub(a, b) | Term::Mult(a, b) => {
            law_term_map(*a, f, rho);
            law_term_map(*b, f, rho);
        },
        Term::Neg(a) | Term::Not(a) | Term::IsZero(a) => {
            law_term_map(*a, f, rho);
        },
        _ => {},
    }
}

/// Substituting for a variable a term of its value leaves the value.
pub proof fn law_term_subst(t: Term, x: AbstractValue, r: Term, rho: Valuation)
    requires
        rho(x) == term_value(r, rho),
    ensures
        term_value(term_subst(t, x, r), rho) == term_value(t, rho),
{
    law_term_map(t, replacing(x, r), rho);
    let f = replacing(x, r);
    assert((|v: AbstractValue| term_value(f(v), rho)) =~= rho);
}

/// Translating variables translates them in every valuation.
pub proof fn law_term_translate(
    t: Term,
    f: spec_fn(AbstractValue) -> AbstractValue,
    rho: Valuation,
)
    ensures
        term_value(term_map(t, to_var(f)), rho) == term_value(t, renamed(rho, f)),
{
    law_term_map(t, to_var(f), rho);
    let g = to_var(f);
    assert((|v: AbstractValue| term_value(g(v), rho)) =~= renamed(rho, f));
}

} // verus!
