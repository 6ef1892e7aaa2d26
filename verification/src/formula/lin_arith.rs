//! Linear arithmetic over rationals.
//!
//! A `LinArith` is a linear combination `c + a1*v1 + a2*v2 + ...` where `c` is
//! a rational constant and the `ai` are rational coefficients. No coefficient
//! is zero.

use crate::abstract_value::AbstractValue;
use crate::ordered::{
    del, lemma_del_sorted, lemma_lookup_at, lemma_lookup_has_key, lemma_position_exists,
    lemma_put_at, lemma_put_sorted, lemma_sorted_drop_first, lookup, put, sorted, Dup, OrdMap,
};
use crate::rational::{
    lemma_int_wf, lemma_q_add, lemma_q_div, lemma_q_mul, lemma_q_neg, lemma_q_tests, q_add, q_div,
    q_int, q_mul, q_neg, Q,
};
use crate::sat_unsat::SatUnsat;
use vstd::prelude::*;

verus! {

pub type Coeffs = Seq<(AbstractValue, Q)>;

/// A linear combination: a constant and the coefficients by variable.
#[verifier::ext_equal]
pub struct Lin {
    pub c: Q,
    pub vars: Coeffs,
}

/// A linear arithmetic expression: `constant + sum(coeff_i * var_i)`.
///
/// No coefficient in `vars` is zero.
#[derive(Debug, PartialEq, Eq)]
pub struct LinArith {
    pub constant: Q,
    /// Variable to coefficient, ordered by variable.
    pub vars: OrdMap<AbstractValue, Q>,
}

/// What a linear equation `l = 0` amounts to: nothing, a contradiction, or one
/// variable expressed by the others.
pub type Solved = SatUnsat<Option<(AbstractValue, Lin)>>;

pub open spec fn lin_const(q: Q) -> Lin {
    Lin { c: q, vars: Coeffs::empty() }
}

pub open spec fn lin_var(v: AbstractValue) -> Lin {
    Lin { c: q_int(0), vars: seq![(v, q_int(1))] }
}

/// `s` with `q` added to the coefficient of `v`; a coefficient that becomes
/// zero is dropped.
pub open spec fn add_coeff(s: Coeffs, v: AbstractValue, q: Q) -> Option<Coeffs> {
    let present = match lookup(s, v) {
        Some(p) => p,
        None => q_int(0),
    };
    match q_add(present, q) {
        None => None,
        Some(r) => Some(
            if r.numer == 0 {
                del(s, v)
            } else {
                put::<AbstractValue, Q>(s, v, r)
            },
        ),
    }
}

/// `s` with the coefficients of `t` added, after renaming each variable by
/// `f`.
pub open spec fn add_coeffs(
    s: Coeffs,
    t: Coeffs,
    f: spec_fn(AbstractValue) -> AbstractValue,
) -> Option<Coeffs>
    decreases t.len(),
{
    if t.len() == 0 {
        Some(s)
    } else {
        match add_coeff(s, f(t[0].0), t[0].1) {
            None => None,
            Some(r) => add_coeffs(r, t.drop_first(), f),
        }
    }
}

pub open spec fn same_var() -> spec_fn(AbstractValue) -> AbstractValue {
    |v: AbstractValue| v
}

pub open spec fn lin_add(a: Lin, b: Lin) -> Option<Lin> {
    match (q_add(a.c, b.c), add_coeffs(a.vars, b.vars, same_var())) {
        (Some(c), Some(vars)) => Some(Lin { c, vars }),
        _ => None,
    }
}

pub open spec fn lin_neg(a: Lin) -> Option<Lin> {
    if q_neg(a.c) is Some && forall|i: int|
        0 <= i < a.vars.len() ==> q_neg((#[trigger] a.vars[i]).1) is Some {
        Some(
            Lin {
                c: q_neg(a.c)->0,
                vars: a.vars.map_values(|e: (AbstractValue, Q)| (e.0, q_neg(e.1)->0)),
            },
        )
    } else {
        None
    }
}

pub open spec fn lin_sub(a: Lin, b: Lin) -> Option<Lin> {
    match lin_neg(b) {
        None => None,
        Some(n) => lin_add(a, n),
    }
}

pub open spec fn lin_scale(a: Lin, q: Q) -> Option<Lin> {
    if q.numer == 0 {
        Some(lin_const(q_int(0)))
    } else if q.numer == q.denom {
        Some(a)
    } else if q_mul(a.c, q) is Some && forall|i: int|
        0 <= i < a.vars.len() ==> q_mul((#[trigger] a.vars[i]).1, q) is Some {
        Some(
            Lin {
                c: q_mul(a.c, q)->0,
                vars: a.vars.map_values(|e: (AbstractValue, Q)| (e.0, q_mul(e.1, q)->0)),
            },
        )
    } else {
        None
    }
}

/// The coefficients other than that of `x`, divided by `d`, zeros dropped.
pub open spec fn divide_others(s: Coeffs, x: AbstractValue, d: Q) -> Option<Coeffs>
    decreases s.len(),
{
    if s.len() == 0 {
        Some(s)
    } else {
        let e = s.last();
        match divide_others(s.drop_last(), x, d) {
            None => None,
            Some(r) => if e.0 == x {
                Some(r)
            } else {
                match q_div(e.1, d) {
                    None => None,
                    Some(q) => Some(
                        if q.numer == 0 {
                            r
                        } else {
                            r.push((e.0, q))
                        },
                    ),
                }
            },
        }
    }
}

/// The solution of `l = 0` for `x`, whose coefficient is `coeff`.
pub open spec fn lin_pivot(l: Lin, x: AbstractValue, coeff: Q) -> Option<Lin> {
    match q_neg(coeff) {
        None => None,
        Some(d) => match (q_div(l.c, d), divide_others(l.vars, x, d)) {
            (Some(c), Some(vars)) => Some(Lin { c, vars }),
            _ => None,
        },
    }
}

/// What `l = 0` says, solved for the smallest variable.
pub open spec fn lin_solve(l: Lin) -> Option<Solved> {
    if l.vars.len() == 0 {
        if l.c.numer == 0 {
            Some(SatUnsat::Sat(None))
        } else {
            Some(SatUnsat::Unsat)
        }
    } else {
        match lin_pivot(l, l.vars[0].0, l.vars[0].1) {
            None => None,
            Some(p) => Some(SatUnsat::Sat(Some((l.vars[0].0, p)))),
        }
    }
}

pub open spec fn lin_subst(l: Lin, x: AbstractValue, r: Lin) -> Option<Lin> {
    match lookup(l.vars, x) {
        None => Some(l),
        Some(q) => match lin_scale(r, q) {
            None => None,
            Some(s) => lin_add(Lin { c: l.c, vars: del(l.vars, x) }, s),
        },
    }
}

pub open spec fn lin_rename(l: Lin, f: spec_fn(AbstractValue) -> AbstractValue) -> Option<Lin> {
    match add_coeffs(Coeffs::empty(), l.vars, f) {
        None => None,
        Some(vars) => Some(Lin { c: l.c, vars }),
    }
}

pub open spec fn lin_as_const(l: Lin) -> Option<Q> {
    if l.vars.len() == 0 {
        Some(l.c)
    } else {
        None
    }
}

pub open spec fn lin_as_var(l: Lin) -> Option<AbstractValue> {
    if l.c.numer == 0 && l.vars.len() == 1 && l.vars[0].1.numer == l.vars[0].1.denom {
        Some(l.vars[0].0)
    } else {
        None
    }
}

/// The function that a mapping computes, for a mapping that gives one result
/// for each value.
pub open spec fn mapping<F: Fn(AbstractValue) -> AbstractValue>(f: F) -> spec_fn(
    AbstractValue,
) -> AbstractValue {
    |v: AbstractValue| choose|r: AbstractValue| call_ensures(f, (v,), r)
}

/// `f` can be called on every value and gives one result for each.
pub open spec fn is_mapping<F: Fn(AbstractValue) -> AbstractValue>(f: F) -> bool {
    &&& forall|v: AbstractValue| #[trigger] call_requires(f, (v,))
    &&& forall|v: AbstractValue, r: AbstractValue|
        #[trigger] call_ensures(f, (v,), r) ==> r == mapping(f)(v)
}

/// A summand as it is shown.
pub open spec fn summand_text(v: AbstractValue, q: Q) -> Seq<char> {
    if q.denom == 1 && q.numer == 1 {
        v.text()
    } else if q.denom == 1 && q.numer == -1 {
        "-"@ + v.text()
    } else {
        q.text() + "·"@ + v.text()
    }
}

/// A sum as it is shown: a summand that does not start with a minus sign, other
/// than the first, is preceded by a plus sign.
pub open spec fn summands_text(s: Coeffs) -> Seq<char>
    decreases s.len(),
{
    if s.len() == 0 {
        seq![]
    } else {
        summands_text(s.drop_last()) + (if s.len() > 1 && s.last().1.numer >= 0 {
            "+"@
        } else {
            seq![]
        }) + summand_text(s.last().0, s.last().1)
    }
}

impl Lin {
    /// The linear combination as it is shown.
    pub open spec fn text(self) -> Seq<char> {
        if self.vars.len() == 0 {
            self.c.text()
        } else {
            summands_text(self.vars) + (if self.c.numer > 0 {
                "+"@ + self.c.text()
            } else if self.c.numer < 0 {
                self.c.text()
            } else {
                seq![]
            })
        }
    }
}

impl View for LinArith {
    type V = Lin;

    open spec fn view(&self) -> Lin {
        Lin { c: self.constant, vars: self.vars@ }
    }
}

impl Dup for LinArith {
    fn dup(&self) -> (r: Self) {
        LinArith { constant: self.constant, vars: self.vars.dup() }
    }
}

impl Clone for LinArith {
    fn clone(&self) -> (r: Self)
        ensures
            r@ == self@,
    {
        self.dup()
    }
}

/// The view of a solution.
pub open spec fn solved_view(s: SatUnsat<Option<(AbstractValue, LinArith)>>) -> Solved {
    match s {
        SatUnsat::Unsat => SatUnsat::Unsat,
        SatUnsat::Sat(None) => SatUnsat::Sat(None),
        SatUnsat::Sat(Some((x, l))) => SatUnsat::Sat(Some((x, l@))),
    }
}

fn add_to_coeff(vars: &mut OrdMap<AbstractValue, Q>, v: AbstractValue, q: Q)
    requires
        add_coeff(old(vars)@, v, q) is Some,
    ensures
        Some(final(vars)@) == add_coeff(old(vars)@, v, q),
{
    let present = match vars.get(&v) {
        Some(p) => *p,
        None => Q::zero(),
    };
    let r = present.plus(&q);
    if r.is_zero() {
        vars.remove(&v);
    } else {
        vars.insert(v, r);
    }
}

/// Appends the text of a summand.
fn push_summand(v: AbstractValue, q: &Q, out: &mut String)
    ensures
        final(out)@ == old(out)@ + summand_text(v, *q),
{
    let ghost before = out@;
    if q.denom == 1 && q.numer == 1 {
        v.push_text(out);
    } else if q.denom == 1 && q.numer == -1 {
        out.append("-");
        v.push_text(out);
    } else {
        q.push_text(out);
        out.append("·");
        v.push_text(out);
    }
    assert(out@ =~= before + summand_text(v, *q));
}

impl LinArith {
    /// Appends the text of the linear combination.
    pub fn push_text(&self, out: &mut String)
        ensures
            final(out)@ == old(out)@ + self@.text(),
    {
        if self.vars.is_empty() {
            self.constant.push_text(out);
            return;
        }
        let ghost before = out@;
        let ghost s = self.vars@;
        let mut i: usize = 0;
        assert(s.take(0) =~= Coeffs::empty());
        assert(before + summands_text(s.take(0)) =~= before);
        while i < self.vars.len()
            invariant
                s == self.vars@,
                i <= s.len(),
                out@ == before + summands_text(s.take(i as int)),
            decreases s.len() - i,
        {
            let ghost t = s.take(i + 1);
            assert(t.drop_last() =~= s.take(i as int));
            assert(t.last() == s[i as int]);
            let v = *self.vars.key_at(i);
            let q = *self.vars.value_at(i);
            if i > 0 && q.numer >= 0 {
                out.append("+");
            }
            push_summand(v, &q, out);
            assert(out@ =~= before + summands_text(t));
            i = i + 1;
        }
        assert(s.take(i as int) =~= s);
        if self.constant.numer > 0 {
            out.append("+");
            self.constant.push_text(out);
        } else if self.constant.numer < 0 {
            self.constant.push_text(out);
        }
        assert(out@ =~= before + self@.text());
    }

    pub fn to_string(&self) -> (r: String)
        ensures
            r@ == self@.text(),
    {
        let mut out = String::new();
        self.push_text(&mut out);
        assert(Seq::<char>::empty() + self@.text() =~= self@.text());
        out
    }

    /// The zero linear expression.
    pub fn zero() -> (r: Self)
        ensures
            r@ == lin_const(q_int(0)),
            lin_wf(r@),
    {
        LinArith { constant: Q::zero(), vars: OrdMap::new() }
    }

    /// A constant expression.
    pub fn of_q(q: Q) -> (r: Self)
        ensures
            r@ == lin_const(q),
            q.wf() ==> lin_wf(r@),
    {
        LinArith { constant: q, vars: OrdMap::new() }
    }

    /// A constant integer expression.
    pub fn of_int(n: i64) -> (r: Self)
        ensures
            r@ == lin_const(q_int(n)),
            lin_wf(r@),
    {
        Self::of_q(Q::from_integer(n))
    }

    /// A single variable with coefficient 1.
    pub fn of_var(v: AbstractValue) -> (r: Self)
        ensures
            r@ == lin_var(v),
            lin_wf(r@),
    {
        proof {
            lemma_int_wf(1);
        }
        let mut vars: OrdMap<AbstractValue, Q> = OrdMap::new();
        vars.insert(v, Q::one());
        assert(vars@ =~= seq![(v, q_int(1))]);
        LinArith { constant: Q::zero(), vars }
    }

    /// Check if this is the zero expression.
    pub fn is_zero(&self) -> (b: bool)
        ensures
            b == (self@.c.numer == 0 && self@.vars.len() == 0),
    {
        self.constant.is_zero() && self.vars.is_empty()
    }

    /// Get as a constant, if there are no variables.
    pub fn get_as_const(&self) -> (r: Option<Q>)
        ensures
            r == lin_as_const(self@),
    {
        if self.vars.is_empty() {
            Some(self.constant)
        } else {
            None
        }
    }

    /// Get as a single variable (coefficient 1, constant 0).
    pub fn get_as_var(&self) -> (r: Option<AbstractValue>)
        ensures
            r == lin_as_var(self@),
    {
        if !self.constant.is_zero() {
            return None;
        }
        if self.vars.len() != 1 {
            return None;
        }
        if self.vars.value_at(0).is_one() {
            Some(*self.vars.key_at(0))
        } else {
            None
        }
    }

    /// Get the constant part.
    pub fn get_constant_part(&self) -> (r: &Q)
        ensures
            *r == self@.c,
    {
        &self.constant
    }

    /// Get the coefficient of a variable.
    pub fn get_coefficient(&self, v: AbstractValue) -> (r: Option<&Q>)
        ensures
            r is Some <==> lookup(self@.vars, v) is Some,
            r is Some ==> lookup(self@.vars, v) == Some(*r->0),
    {
        self.vars.get(&v)
    }

    /// Get the simplest variable (smallest by value).
    pub fn get_simplest(&self) -> (r: Option<AbstractValue>)
        ensures
            r == if self@.vars.len() == 0 {
                None::<AbstractValue>
            } else {
                Some(self@.vars[0].0)
            },
            r matches Some(x) ==> forall|i: int|
                0 <= i < self@.vars.len() ==> x.0 <= (#[trigger] self@.vars[i]).0.0,
    {
        if self.vars.len() == 0 {
            None
        } else {
            Some(*self.vars.key_at(0))
        }
    }

    /// Addition.
    pub fn add(&self, other: &Self) -> (r: Self)
        requires
            lin_add(self@, other@) is Some,
        ensures
            Some(r@) == lin_add(self@, other@),
            lin_wf(self@) ==> lin_wf(r@),
    {
        proof {
            if lin_wf(self@) {
                law_add(self@, other@, |v: AbstractValue| 0real);
            }
        }
        let constant = self.constant.plus(&other.constant);
        let mut vars = self.vars.dup();
        let mut i: usize = 0;
        assert(other.vars@.skip(0) =~= other.vars@);
        while i < other.vars.len()
            invariant
                i <= other.vars@.len(),
                add_coeffs(vars@, other.vars@.skip(i as int), same_var()) is Some,
                add_coeffs(vars@, other.vars@.skip(i as int), same_var()) == add_coeffs(
                    self.vars@,
                    other.vars@,
                    same_var(),
                ),
            decreases other.vars@.len() - i,
        {
            assert(other.vars@.skip(i as int).drop_first() =~= other.vars@.skip(i + 1));
            add_to_coeff(&mut vars, *other.vars.key_at(i), *other.vars.value_at(i));
            i = i + 1;
        }
        LinArith { constant, vars }
    }

    /// Negation.
    pub fn neg(&self) -> (r: Self)
        requires
            lin_neg(self@) is Some,
        ensures
            Some(r@) == lin_neg(self@),
            lin_wf(self@) ==> lin_wf(r@),
    {
        proof {
            if lin_wf(self@) {
                law_neg(self@, |v: AbstractValue| 0real);
            }
        }
        let constant = self.constant.negated();
        let mut vars: OrdMap<AbstractValue, Q> = OrdMap::new();
        let ghost f = |e: (AbstractValue, Q)| (e.0, q_neg(e.1)->0);
        let n: usize = self.vars.len();
        let mut i: usize = 0;
        while i < n
            invariant
                i <= n == self.vars@.len(),
                lin_neg(self@) is Some,
                f == (|e: (AbstractValue, Q)| (e.0, q_neg(e.1)->0)),
                sorted::<AbstractValue, Q>(self.vars@),
                vars@ =~= self.vars@.take(i as int).map_values(f),
            decreases self.vars@.len() - i,
        {
            assert(self@.vars[i as int] == self.vars@[i as int]);
            if i > 0 {
                assert(vars@.last().0 == self.vars@[i - 1].0);
            }
            vars.push_last(*self.vars.key_at(i), self.vars.value_at(i).negated());
            i = i + 1;
        }
        assert(self.vars@.take(i as int) =~= self.vars@);
        LinArith { constant, vars }
    }

    /// Subtraction.
    pub fn sub(&self, other: &Self) -> (r: Self)
        requires
            lin_sub(self@, other@) is Some,
        ensures
            Some(r@) == lin_sub(self@, other@),
            lin_wf(self@) ==> lin_wf(r@),
    {
        self.add(&other.neg())
    }

    /// Scalar multiplication.
    pub fn mult_scalar(&self, q: &Q) -> (r: Self)
        requires
            lin_scale(self@, *q) is Some,
        ensures
            Some(r@) == lin_scale(self@, *q),
            lin_wf(self@) && q.wf() ==> lin_wf(r@),
    {
        proof {
            if lin_wf(self@) && q.wf() {
                law_scale(self@, *q, |v: AbstractValue| 0real);
            }
        }
        if q.is_zero() {
            return Self::zero();
        }
        if q.is_one() {
            return self.dup();
        }
        let constant = self.constant.times(q);
        let mut vars: OrdMap<AbstractValue, Q> = OrdMap::new();
        let ghost f = |e: (AbstractValue, Q)| (e.0, q_mul(e.1, *q)->0);
        let n: usize = self.vars.len();
        let mut i: usize = 0;
        while i < n
            invariant
                i <= n == self.vars@.len(),
                q.numer != 0,
                q.numer != q.denom,
                lin_scale(self@, *q) is Some,
                f == (|e: (AbstractValue, Q)| (e.0, q_mul(e.1, *q)->0)),
                sorted::<AbstractValue, Q>(self.vars@),
                vars@ =~= self.vars@.take(i as int).map_values(f),
            decreases self.vars@.len() - i,
        {
            assert(self@.vars[i as int] == self.vars@[i as int]);
            if i > 0 {
                assert(vars@.last().0 == self.vars@[i - 1].0);
            }
            vars.push_last(*self.vars.key_at(i), self.vars.value_at(i).times(q));
            i = i + 1;
        }
        assert(self.vars@.take(i as int) =~= self.vars@);
        LinArith { constant, vars }
    }

    /// Solve `self = 0` for the simplest variable.
    ///
    /// Returns `Some((x, l))` where `x = l` (the simplest variable solved
    /// in terms of the others), or `None` if the expression has no variables
    /// and is zero; an expression without variables that is not zero is a
    /// contradiction.
    pub fn solve_eq_zero(&self) -> (r: SatUnsat<Option<(AbstractValue, LinArith)>>)
        requires
            lin_solve(self@) is Some,
        ensures
            Some(solved_view(r)) == lin_solve(self@),
            lin_wf(self@) ==> (r matches SatUnsat::Sat(Some((_, l))) ==> lin_wf(l@)),
    {
        proof {
            if lin_wf(self@) {
                law_solve(self@, |v: AbstractValue| 0real);
            }
        }
        if self.vars.len() == 0 {
            if self.constant.is_zero() {
                SatUnsat::Sat(None)
            } else {
                SatUnsat::Unsat
            }
        } else {
            let x = *self.vars.key_at(0);
            let coeff = *self.vars.value_at(0);
            let pivoted = self.pivot(x, &coeff);
            SatUnsat::Sat(Some((x, pivoted)))
        }
    }

    /// Solve `self = other` by solving `self - other = 0`.
    pub fn solve_eq(&self, other: &Self) -> (r: SatUnsat<Option<(AbstractValue, LinArith)>>)
        requires
            lin_sub(self@, other@) is Some,
            lin_solve(lin_sub(self@, other@)->0) is Some,
        ensures
            Some(solved_view(r)) == lin_solve(lin_sub(self@, other@)->0),
    {
        self.sub(other).solve_eq_zero()
    }

    /// Pivot: given `self` contains `x` with coefficient `coeff`, solve for
    /// `x` in terms of the other variables.
    fn pivot(&self, x: AbstractValue, coeff: &Q) -> (r: Self)
        requires
            lin_pivot(self@, x, *coeff) is Some,
        ensures
            Some(r@) == lin_pivot(self@, x, *coeff),
    {
        let neg_coeff = coeff.negated();
        let constant = self.constant.over(&neg_coeff);
        let mut vars: OrdMap<AbstractValue, Q> = OrdMap::new();
        let n: usize = self.vars.len();
        let mut i: usize = 0;
        proof {
            lemma_divide_others_prefix(self.vars@, x, neg_coeff);
        }
        while i < n
            invariant
                i <= n == self.vars@.len(),
                sorted::<AbstractValue, Q>(self.vars@),
                forall|j: int|
                    0 <= j <= self.vars@.len() ==> divide_others(
                        #[trigger] self.vars@.take(j),
                        x,
                        neg_coeff,
                    ) is Some,
                divide_others(self.vars@.take(i as int), x, neg_coeff) == Some(vars@),
                vars@.len() > 0 ==> i > 0 && vars@.last().0.0 <= self.vars@[i - 1].0.0,
            decreases self.vars@.len() - i,
        {
            let ghost t = self.vars@.take(i + 1);
            assert(t.drop_last() =~= self.vars@.take(i as int));
            assert(t.last() == self.vars@[i as int]);
            let v = *self.vars.key_at(i);
            if v != x {
                let q = self.vars.value_at(i).over(&neg_coeff);
                if !q.is_zero() {
                    vars.push_last(v, q);
                }
            }
            i = i + 1;
        }
        assert(self.vars@.take(i as int) =~= self.vars@);
        LinArith { constant, vars }
    }

    /// Substitute a variable with a linear expression.
    pub fn subst_var(&self, x: AbstractValue, replacement: &LinArith) -> (r: Self)
        requires
            lin_subst(self@, x, replacement@) is Some,
        ensures
            Some(r@) == lin_subst(self@, x, replacement@),
            lin_wf(self@) && lin_wf(replacement@) ==> lin_wf(r@),
    {
        proof {
            if lin_wf(self@) && lin_wf(replacement@) {
                law_subst(self@, x, replacement@, |v: AbstractValue| 0real);
            }
        }
        match self.vars.get(&x) {
            None => self.dup(),
            Some(q) => {
                let q = *q;
                let mut without_x = self.dup();
                without_x.vars.remove(&x);
                without_x.add(&replacement.mult_scalar(&q))
            },
        }
    }

    /// All variables of this expression, in order.
    pub fn get_variables(&self) -> (r: Vec<AbstractValue>)
        ensures
            r@ == self@.vars.map_values(|e: (AbstractValue, Q)| e.0),
    {
        let mut out: Vec<AbstractValue> = Vec::new();
        let mut i: usize = 0;
        while i < self.vars.len()
            invariant
                i <= self.vars@.len(),
                out@ =~= self.vars@.take(i as int).map_values(|e: (AbstractValue, Q)| e.0),
            decreases self.vars@.len() - i,
        {
            out.push(*self.vars.key_at(i));
            i = i + 1;
        }
        assert(self.vars@.take(i as int) =~= self.vars@);
        out
    }

    /// Translate all variables using a mapping function.
    pub fn translate<F: Fn(AbstractValue) -> AbstractValue>(&self, f: F) -> (r: Self)
        requires
            is_mapping(f),
            lin_rename(self@, mapping(f)) is Some,
        ensures
            Some(r@) == lin_rename(self@, mapping(f)),
            lin_wf(self@) ==> lin_wf(r@),
    {
        proof {
            if lin_wf(self@) {
                law_rename(self@, mapping(f), |v: AbstractValue| 0real);
            }
        }
        let mut vars: OrdMap<AbstractValue, Q> = OrdMap::new();
        let mut i: usize = 0;
        assert(self.vars@.skip(0) =~= self.vars@);
        while i < self.vars.len()
            invariant
                i <= self.vars@.len(),
                is_mapping(f),
                add_coeffs(vars@, self.vars@.skip(i as int), mapping(f)) is Some,
                add_coeffs(vars@, self.vars@.skip(i as int), mapping(f)) == add_coeffs(
                    Coeffs::empty(),
                    self.vars@,
                    mapping(f),
                ),
            decreases self.vars@.len() - i,
        {
            assert(self.vars@.skip(i as int).drop_first() =~= self.vars@.skip(i + 1));
            let v = *self.vars.key_at(i);
            assert(call_requires(f, (v,)));
            let mapped = f(v);
            add_to_coeff(&mut vars, mapped, *self.vars.value_at(i));
            i = i + 1;
        }
        LinArith { constant: self.constant, vars }
    }
}

proof fn lemma_divide_others_prefix(s: Coeffs, x: AbstractValue, d: Q)
    requires
        divide_others(s, x, d) is Some,
    ensures
        forall|j: int| 0 <= j <= s.len() ==> divide_others(#[trigger] s.take(j), x, d) is Some,
    decreases s.len(),
{
    assert(s.take(s.len() as int) =~= s);
    if s.len() > 0 {
        lemma_divide_others_prefix(s.drop_last(), x, d);
        assert forall|j: int| 0 <= j <= s.len() implies divide_others(
            #[trigger] s.take(j),
            x,
            d,
        ) is Some by {
            if j < s.len() {
                assert(s.take(j) =~= s.drop_last().take(j));
            }
        }
    }
}

/// A value for every variable.
pub type Valuation = spec_fn(AbstractValue) -> real;

/// The sum of the coefficients times the values of their variables.
pub open spec fn sum(s: Coeffs, rho: Valuation) -> real
    decreases s.len(),
{
    if s.len() == 0 {
        0real
    } else {
        s[0].1.value() * rho(s[0].0) + sum(s.drop_first(), rho)
    }
}

/// The number an expression stands for.
pub open spec fn lin_value(l: Lin, rho: Valuation) -> real {
    l.c.value() + sum(l.vars, rho)
}

/// Coefficients in variable order, in lowest terms, none zero.
pub open spec fn coeffs_wf(s: Coeffs) -> bool {
    &&& sorted::<AbstractValue, Q>(s)
    &&& forall|i: int| 0 <= i < s.len() ==> (#[trigger] s[i]).1.wf() && s[i].1.numer != 0
}

pub open spec fn lin_wf(l: Lin) -> bool {
    l.c.wf() && coeffs_wf(l.vars)
}

proof fn lemma_distribute(a: real, b: real, r: real)
    ensures
        (a + b) * r == a * r + b * r,
        (a - b) * r == a * r - b * r,
        r * (a + b) == r * a + r * b,
{
    assert((a + b) * r == a * r + b * r) by (nonlinear_arith);
    assert((a - b) * r == a * r - b * r) by (nonlinear_arith);
    assert(r * (a + b) == r * a + r * b) by (nonlinear_arith);
}

pub open spec fn coeff_value(s: Coeffs, v: AbstractValue) -> real {
    match lookup(s, v) {
        Some(q) => q.value(),
        None => 0real,
    }
}

proof fn lemma_sum_put(s: Coeffs, k: AbstractValue, q: Q, rho: Valuation)
    requires
        sorted::<AbstractValue, Q>(s),
    ensures
        sum(put::<AbstractValue, Q>(s, k, q), rho) == sum(s, rho) - coeff_value(s, k) * rho(k)
            + q.value() * rho(k),
    decreases s.len(),
{
    let p = put::<AbstractValue, Q>(s, k, q);
    if s.len() == 0 {
        assert(p.drop_first() =~= s);
        assert(0real * rho(k) == 0real) by (nonlinear_arith);
    } else if s[0].0 == k {
        assert(p.drop_first() =~= s.drop_first());
    } else if k.0 < s[0].0.0 {
        assert(p.drop_first() =~= s);
        lemma_lookup_has_key(s, k);
        assert(lookup(s, k) is None);
        assert(0real * rho(k) == 0real) by (nonlinear_arith);
    } else {
        lemma_sorted_drop_first::<AbstractValue, Q>(s);
        lemma_sum_put(s.drop_first(), k, q, rho);
        assert(p.drop_first() =~= put::<AbstractValue, Q>(s.drop_first(), k, q));
    }
}

proof fn lemma_sum_del(s: Coeffs, k: AbstractValue, rho: Valuation)
    requires
        sorted::<AbstractValue, Q>(s),
    ensures
        sum(del(s, k), rho) == sum(s, rho) - coeff_value(s, k) * rho(k),
    decreases s.len(),
{
    let p = del(s, k);
    if s.len() == 0 {
        assert(0real * rho(k) == 0real) by (nonlinear_arith);
    } else if s[0].0 != k {
        lemma_sorted_drop_first::<AbstractValue, Q>(s);
        lemma_sum_del(s.drop_first(), k, rho);
        assert(p.drop_first() =~= del(s.drop_first(), k));
    }
}

proof fn lemma_coeffs_put(s: Coeffs, k: AbstractValue, q: Q)
    requires
        coeffs_wf(s),
        q.wf(),
        q.numer != 0,
    ensures
        coeffs_wf(put::<AbstractValue, Q>(s, k, q)),
{
    lemma_put_sorted::<AbstractValue, Q>(s, k, q);
    let i = lemma_position_exists::<AbstractValue, Q>(s, k);
    lemma_put_at::<AbstractValue, Q>(s, k, q, i);
}

pub proof fn lemma_coeffs_del(s: Coeffs, k: AbstractValue)
    requires
        coeffs_wf(s),
    ensures
        coeffs_wf(del(s, k)),
    decreases s.len(),
{
    lemma_del_sorted::<AbstractValue, Q>(s, k);
    if s.len() > 0 && s[0].0 != k {
        lemma_sorted_drop_first::<AbstractValue, Q>(s);
        lemma_coeffs_del(s.drop_first(), k);
        let d = del(s.drop_first(), k);
        assert(del(s, k) == seq![s[0]] + d);
        assert forall|i: int| 0 <= i < del(s, k).len() implies (#[trigger] del(s, k)[i]).1.wf()
            && del(s, k)[i].1.numer != 0 by {
            if i > 0 {
                assert(del(s, k)[i] == d[i - 1]);
            }
        }
    }
}

/// The coefficient found is one of the coefficients.
proof fn lemma_coeff_wf(s: Coeffs, k: AbstractValue)
    requires
        coeffs_wf(s),
    ensures
        lookup(s, k) matches Some(q) ==> q.wf() && q.numer != 0,
{
    lemma_lookup_has_key(s, k);
}

pub proof fn lemma_add_coeff(s: Coeffs, v: AbstractValue, q: Q, rho: Valuation)
    requires
        coeffs_wf(s),
        add_coeff(s, v, q) is Some,
    ensures
        coeffs_wf(add_coeff(s, v, q)->0),
        sum(add_coeff(s, v, q)->0, rho) == sum(s, rho) + q.value() * rho(v),
{
    let present = match lookup(s, v) {
        Some(p) => p,
        None => q_int(0),
    };
    lemma_coeff_wf(s, v);
    lemma_int_wf(0);
    lemma_q_add(present, q);
    let r = q_add(present, q)->0;
    lemma_q_tests(r);
    lemma_q_tests(q_int(0));
    assert(coeff_value(s, v) == present.value());
    lemma_distribute(present.value(), q.value(), rho(v));
    if r.numer == 0 {
        lemma_sum_del(s, v, rho);
        lemma_coeffs_del(s, v);
        assert(0real * rho(v) == 0real) by (nonlinear_arith);
    } else {
        lemma_sum_put(s, v, r, rho);
        lemma_coeffs_put(s, v, r);
    }
}

pub open spec fn renamed(rho: Valuation, f: spec_fn(AbstractValue) -> AbstractValue) -> Valuation {
    |v: AbstractValue| rho(f(v))
}

proof fn lemma_add_coeffs(
    s: Coeffs,
    t: Coeffs,
    f: spec_fn(AbstractValue) -> AbstractValue,
    rho: Valuation,
)
    requires
        coeffs_wf(s),
        add_coeffs(s, t, f) is Some,
    ensures
        coeffs_wf(add_coeffs(s, t, f)->0),
        sum(add_coeffs(s, t, f)->0, rho) == sum(s, rho) + sum(t, renamed(rho, f)),
    decreases t.len(),
{
    if t.len() > 0 {
        lemma_add_coeff(s, f(t[0].0), t[0].1, rho);
        lemma_add_coeffs(add_coeff(s, f(t[0].0), t[0].1)->0, t.drop_first(), f, rho);
    }
}

/// The value of a sum is the sum of the values, and the sum keeps no zero
/// coefficient.
pub proof fn law_add(a: Lin, b: Lin, rho: Valuation)
    requires
        lin_wf(a),
        lin_add(a, b) is Some,
    ensures
        lin_wf(lin_add(a, b)->0),
        lin_value(lin_add(a, b)->0, rho) == lin_value(a, rho) + lin_value(b, rho),
{
    lemma_q_add(a.c, b.c);
    lemma_add_coeffs(a.vars, b.vars, same_var(), rho);
    assert(renamed(rho, same_var()) =~= rho);
}

proof fn lemma_sum_neg(s: Coeffs, rho: Valuation)
    requires
        coeffs_wf(s),
        forall|i: int| 0 <= i < s.len() ==> q_neg((#[trigger] s[i]).1) is Some,
    ensures
        coeffs_wf(s.map_values(|e: (AbstractValue, Q)| (e.0, q_neg(e.1)->0))),
        sum(s.map_values(|e: (AbstractValue, Q)| (e.0, q_neg(e.1)->0)), rho) == -sum(s, rho),
    decreases s.len(),
{
    let f = |e: (AbstractValue, Q)| (e.0, q_neg(e.1)->0);
    let m = s.map_values(f);
    assert forall|i: int, j: int| 0 <= i < j < m.len() implies (#[trigger] m[i]).0.0 < (
    #[trigger] m[j]).0.0 by {
        assert(s[i].0.0 < s[j].0.0);
    }
    assert forall|i: int| 0 <= i < m.len() implies (#[trigger] m[i]).1.wf() && m[i].1.numer
        != 0 by {
        assert(s[i].1.wf() && s[i].1.numer != 0 && q_neg(s[i].1) is Some);
        lemma_q_neg(s[i].1);
    }
    if s.len() > 0 {
        let r = s.drop_first();
        lemma_sorted_drop_first::<AbstractValue, Q>(s);
        assert forall|i: int| 0 <= i < r.len() implies (#[trigger] r[i]).1.wf() && r[i].1.numer
            != 0 && q_neg(r[i].1) is Some by {
            assert(r[i] == s[i + 1]);
        }
        lemma_sum_neg(r, rho);
        assert(m.drop_first() =~= r.map_values(f));
        assert(s[0].1.wf() && q_neg(s[0].1) is Some);
        lemma_q_neg(s[0].1);
        let (a, b) = (s[0].1.value(), rho(s[0].0));
        assert((-a) * b == -(a * b)) by (nonlinear_arith);
    }
}

/// The value of a negation is the negated value.
pub proof fn law_neg(a: Lin, rho: Valuation)
    requires
        lin_wf(a),
        lin_neg(a) is Some,
    ensures
        lin_wf(lin_neg(a)->0),
        lin_value(lin_neg(a)->0, rho) == -lin_value(a, rho),
{
    lemma_q_neg(a.c);
    lemma_sum_neg(a.vars, rho);
}

/// The value of a difference is the difference of the values.
pub proof fn law_sub(a: Lin, b: Lin, rho: Valuation)
    requires
        lin_wf(a),
        lin_wf(b),
        lin_sub(a, b) is Some,
    ensures
        lin_wf(lin_sub(a, b)->0),
        lin_value(lin_sub(a, b)->0, rho) == lin_value(a, rho) - lin_value(b, rho),
{
    law_neg(b, rho);
    law_add(a, lin_neg(b)->0, rho);
}

/// Adding an expression's negation to it leaves zero.
pub proof fn law_add_cancels(a: Lin)
    requires
        lin_wf(a),
        lin_neg(a) is Some,
    ensures
        lin_add(a, lin_neg(a)->0) == Some(lin_const(q_int(0))),
{
    lemma_q_neg(a.c);
    lemma_cancel_coeffs(a.vars);
}

proof fn lemma_cancel_coeffs(s: Coeffs)
    requires
        coeffs_wf(s),
        forall|i: int| 0 <= i < s.len() ==> q_neg((#[trigger] s[i]).1) is Some,
    ensures
        add_coeffs(
            s,
            s.map_values(|e: (AbstractValue, Q)| (e.0, q_neg(e.1)->0)),
            same_var(),
        ) == Some(Coeffs::empty()),
    decreases s.len(),
{
    let f = |e: (AbstractValue, Q)| (e.0, q_neg(e.1)->0);
    let m = s.map_values(f);
    if s.len() == 0 {
        assert(s =~= Coeffs::empty());
    } else {
        let r = s.drop_first();
        lemma_sorted_drop_first::<AbstractValue, Q>(s);
        assert forall|i: int| 0 <= i < r.len() implies (#[trigger] r[i]).1.wf() && r[i].1.numer
            != 0 && q_neg(r[i].1) is Some by {
            assert(r[i] == s[i + 1]);
        }
        lemma_lookup_at::<AbstractValue, Q>(s, 0);
        assert(s[0].1.wf() && q_neg(s[0].1) is Some);
        lemma_q_neg(s[0].1);
        assert(m.drop_first() =~= r.map_values(f));
        assert(add_coeff(s, m[0].0, m[0].1) == Some(r));
        lemma_cancel_coeffs(r);
    }
}

proof fn lemma_sum_scale(s: Coeffs, q: Q, rho: Valuation)
    requires
        coeffs_wf(s),
        q.wf(),
        q.numer != 0,
        forall|i: int| 0 <= i < s.len() ==> q_mul((#[trigger] s[i]).1, q) is Some,
    ensures
        coeffs_wf(s.map_values(|e: (AbstractValue, Q)| (e.0, q_mul(e.1, q)->0))),
        sum(s.map_values(|e: (AbstractValue, Q)| (e.0, q_mul(e.1, q)->0)), rho) == q.value() * sum(
            s,
            rho,
        ),
    decreases s.len(),
{
    let f = |e: (AbstractValue, Q)| (e.0, q_mul(e.1, q)->0);
    let m = s.map_values(f);
    assert forall|i: int, j: int| 0 <= i < j < m.len() implies (#[trigger] m[i]).0.0 < (
    #[trigger] m[j]).0.0 by {
        assert(s[i].0.0 < s[j].0.0);
    }
    assert forall|i: int| 0 <= i < m.len() implies (#[trigger] m[i]).1.wf() && m[i].1.numer
        != 0 by {
        assert(s[i].1.wf() && s[i].1.numer != 0 && q_mul(s[i].1, q) is Some);
        lemma_q_mul(s[i].1, q);
        lemma_q_tests(s[i].1);
        lemma_q_tests(q);
        lemma_q_tests(m[i].1);
        let (a, b) = (s[i].1.value(), q.value());
        assert(a * b != 0real) by (nonlinear_arith)
            requires
                a != 0real,
                b != 0real,
        ;
    }
    let k = q.value();
    if s.len() > 0 {
        let r = s.drop_first();
        lemma_sorted_drop_first::<AbstractValue, Q>(s);
        assert forall|i: int| 0 <= i < r.len() implies (#[trigger] r[i]).1.wf() && r[i].1.numer
            != 0 && q_mul(r[i].1, q) is Some by {
            assert(r[i] == s[i + 1]);
        }
        lemma_sum_scale(r, q, rho);
        assert(m.drop_first() =~= r.map_values(f));
        assert(q_mul(s[0].1, q) is Some);
        lemma_q_mul(s[0].1, q);
        let (a, b, t) = (s[0].1.value(), rho(s[0].0), sum(r, rho));
        assert((a * k) * b + k * t == k * (a * b + t)) by (nonlinear_arith);
    } else {
        assert(k * 0real == 0real) by (nonlinear_arith);
    }
}

/// The value of a multiple is the multiple of the value.
pub proof fn law_scale(a: Lin, q: Q, rho: Valuation)
    requires
        lin_wf(a),
        q.wf(),
        lin_scale(a, q) is Some,
    ensures
        lin_wf(lin_scale(a, q)->0),
        lin_value(lin_scale(a, q)->0, rho) == q.value() * lin_value(a, rho),
{
    lemma_q_tests(q);
    let v = lin_value(a, rho);
    if q.numer == 0 {
        lemma_int_wf(0);
        lemma_q_tests(q_int(0));
        assert(0real * v == 0real) by (nonlinear_arith);
    } else if q.numer == q.denom {
        assert(1real * v == v) by (nonlinear_arith);
    } else {
        lemma_q_mul(a.c, q);
        lemma_sum_scale(a.vars, q, rho);
        let (k, c, t) = (q.value(), a.c.value(), sum(a.vars, rho));
        assert(c * k + k * t == k * (c + t)) by (nonlinear_arith);
    }
}

proof fn lemma_sum_push(s: Coeffs, e: (AbstractValue, Q), rho: Valuation)
    ensures
        sum(s.push(e), rho) == sum(s, rho) + e.1.value() * rho(e.0),
    decreases s.len(),
{
    if s.len() == 0 {
        assert(s.push(e).drop_first() =~= s);
    } else {
        lemma_sum_push(s.drop_first(), e, rho);
        assert(s.push(e).drop_first() =~= s.drop_first().push(e));
    }
}

/// Dividing the coefficients other than that of `x`: what remains is in order
/// and without `x`, and its sum times the divisor is the sum without `x`.
proof fn lemma_divide_others(s: Coeffs, x: AbstractValue, d: Q, rho: Valuation)
    requires
        coeffs_wf(s),
        divide_others(s, x, d) is Some,
    ensures
        coeffs_wf(divide_others(s, x, d)->0),
        lookup(divide_others(s, x, d)->0, x) is None,
        divide_others(s, x, d)->0.len() > 0 ==> s.len() > 0 && divide_others(
            s,
            x,
            d,
        )->0.last().0.0 <= s.last().0.0,
        d.value() * sum(divide_others(s, x, d)->0, rho) == sum(s, rho) - coeff_value(s, x) * rho(x),
    decreases s.len(),
{
    let r = divide_others(s, x, d)->0;
    let k = d.value();
    if s.len() == 0 {
        assert(k * 0real == 0real) by (nonlinear_arith);
        assert(0real * rho(x) == 0real) by (nonlinear_arith);
    } else {
        let t = s.drop_last();
        let e = s.last();
        assert forall|i: int, j: int| 0 <= i < j < t.len() implies (#[trigger] t[i]).0.0 < (
        #[trigger] t[j]).0.0 by {
            assert(s[i].0.0 < s[j].0.0);
        }
        assert(coeffs_wf(t));
        lemma_divide_others(t, x, d, rho);
        let rt = divide_others(t, x, d)->0;
        assert(s =~= t.push(e));
        lemma_sum_push(t, e, rho);
        assert(s[s.len() - 1] == e);
        if t.len() > 0 {
            assert(s[s.len() - 2].0.0 < s[s.len() - 1].0.0);
        }
        if e.0 == x {
            lemma_lookup_at::<AbstractValue, Q>(s, s.len() - 1);
            lemma_lookup_has_key(t, x);
            assert(lookup(t, x) is None) by {
                if lookup(t, x) is Some {
                    let i = choose|i: int|
                        0 <= i < t.len() && (#[trigger] t[i]) == (x, lookup(t, x)->0);
                    assert(s[i].0.0 < s[s.len() - 1].0.0);
                }
            }
            assert(0real * rho(x) == 0real) by (nonlinear_arith);
        } else {
            let q = q_div(e.1, d)->0;
            lemma_q_div(e.1, d);
            lemma_q_tests(e.1);
            lemma_q_tests(q);
            let (a, b) = (e.1.value(), rho(e.0));
            assert(k * (a / k) == a && (a != 0real ==> a / k != 0real)) by (nonlinear_arith)
                requires
                    k != 0real,
            ;
            assert(r == rt.push((e.0, q)));
            lemma_sum_push(rt, (e.0, q), rho);
            let (u, w) = (sum(rt, rho), a / k);
            assert(k * (u + w * b) == k * u + (k * w) * b) by (nonlinear_arith);
            crate::ordered::lemma_sorted_push::<AbstractValue, Q>(rt, e.0, q);
            lemma_lookup_push(rt, (e.0, q), x);
            lemma_lookup_push(t, e, x);
        }
    }
}

proof fn lemma_lookup_push(s: Coeffs, e: (AbstractValue, Q), x: AbstractValue)
    requires
        e.0 != x,
    ensures
        lookup(s.push(e), x) == lookup(s, x),
    decreases s.len(),
{
    if s.len() == 0 {
        assert(s.push(e).drop_first() =~= s);
    } else {
        assert(s.push(e).drop_first() =~= s.drop_first().push(e));
        if s[0].0 != x {
            lemma_lookup_push(s.drop_first(), e, x);
        }
    }
}

/// Solving `l = 0`: it reports a contradiction where no valuation makes `l`
/// zero, nothing where every valuation does, and otherwise a variable whose
/// value equals that of its solution in exactly the valuations that make `l`
/// zero. The solution does not mention the variable.
pub proof fn law_solve(l: Lin, rho: Valuation)
    requires
        lin_wf(l),
        lin_solve(l) is Some,
    ensures
        match lin_solve(l)->0 {
            SatUnsat::Unsat => lin_value(l, rho) != 0real,
            SatUnsat::Sat(None) => lin_value(l, rho) == 0real,
            SatUnsat::Sat(Some((x, p))) => {
                &&& lin_wf(p)
                &&& lookup(p.vars, x) is None
                &&& lin_value(l, rho) == 0real <==> rho(x) == lin_value(p, rho)
            },
        },
{
    lemma_q_tests(l.c);
    if l.vars.len() > 0 {
        let x = l.vars[0].0;
        let a = l.vars[0].1;
        let d = q_neg(a)->0;
        lemma_lookup_at::<AbstractValue, Q>(l.vars, 0);
        lemma_q_neg(a);
        lemma_q_div(l.c, d);
        lemma_divide_others(l.vars, x, d, rho);
        let p = lin_pivot(l, x, a)->0;
        let (k, c, t, b) = (d.value(), l.c.value(), sum(p.vars, rho), rho(x));
        let av = a.value();
        assert(k * (c / k) == c) by (nonlinear_arith)
            requires
                k != 0real,
        ;
        let w = c / k;
        assert(k * (w + t) == k * w + k * t) by (nonlinear_arith);
        assert(av * b == -(k * b)) by (nonlinear_arith)
            requires
                k == -av,
        ;
        let z = w + t;
        assert(lin_value(l, rho) == k * z - k * b);
        assert(k * z - k * b == 0real <==> b == z) by (nonlinear_arith)
            requires
                k != 0real,
        ;
    }
}

/// Substituting for a variable an expression of its value leaves the value.
pub proof fn law_subst(l: Lin, x: AbstractValue, r: Lin, rho: Valuation)
    requires
        lin_wf(l),
        lin_wf(r),
        lin_subst(l, x, r) is Some,
    ensures
        lin_wf(lin_subst(l, x, r)->0),
        rho(x) == lin_value(r, rho) ==> lin_value(lin_subst(l, x, r)->0, rho) == lin_value(l, rho),
{
    if lookup(l.vars, x) is Some {
        let q = lookup(l.vars, x)->0;
        lemma_coeff_wf(l.vars, x);
        law_scale(r, q, rho);
        lemma_coeffs_del(l.vars, x);
        lemma_sum_del(l.vars, x, rho);
        law_add(Lin { c: l.c, vars: del(l.vars, x) }, lin_scale(r, q)->0, rho);
    }
}

/// Renaming variables renames them in every valuation.
pub proof fn law_rename(l: Lin, f: spec_fn(AbstractValue) -> AbstractValue, rho: Valuation)
    requires
        lin_wf(l),
        lin_rename(l, f) is Some,
    ensures
        lin_wf(lin_rename(l, f)->0),
        lin_value(lin_rename(l, f)->0, rho) == lin_value(l, renamed(rho, f)),
{
    lemma_add_coeffs(Coeffs::empty(), l.vars, f, rho);
}

pub proof fn lemma_lin_basics(q: Q, v: AbstractValue, rho: Valuation)
    ensures
        q.wf() ==> lin_wf(lin_const(q)),
        lin_value(lin_const(q), rho) == q.value(),
        lin_wf(lin_var(v)),
        lin_value(lin_var(v), rho) == rho(v),
{
    lemma_int_wf(0);
    lemma_int_wf(1);
    lemma_q_tests(q_int(0));
    lemma_q_tests(q_int(1));
    let s = lin_var(v).vars;
    assert(s.drop_first() =~= Coeffs::empty());
    assert(sum(s.drop_first(), rho) == 0real);
    let r = rho(v);
    assert(1real * r == r) by (nonlinear_arith);
}

} // verus!
