//! Concrete integer intervals.
//!
//! Tracks integer ranges for abstract values. An interval is either
//! - `Between(lower, upper)`: the value is in `[lower, upper]`, or
//! - `Outside(l, u)`: the value is not in `[l, u]`.
//!
//! This detects infeasibility of integer constraints that reasoning over
//! rationals cannot see.

use crate::binop::Binop;
use crate::text::push_int;
use vstd::prelude::*;

verus! {

/// A bound of an interval: an integer, -inf, or +inf.
#[derive(Clone, Copy, Debug, PartialEq, Eq, Structural)]
pub enum Bound {
    Int(i64),
    MinusInfinity,
    PlusInfinity,
}

/// `v` is a 64-bit integer.
pub open spec fn in_i64(v: int) -> bool {
    i64::MIN <= v <= i64::MAX
}

impl Bound {
    /// The order on bounds: -inf below the integers, +inf above them.
    pub open spec fn spec_le(self, other: Bound) -> bool {
        match (self, other) {
            (Bound::MinusInfinity, _) => true,
            (_, Bound::PlusInfinity) => true,
            (Bound::Int(a), Bound::Int(b)) => a <= b,
            _ => false,
        }
    }

    pub open spec fn spec_lt(self, other: Bound) -> bool {
        !other.spec_le(self)
    }

    pub open spec fn spec_min(a: Bound, b: Bound) -> Bound {
        if a.spec_le(b) {
            a
        } else {
            b
        }
    }

    pub open spec fn spec_max(a: Bound, b: Bound) -> Bound {
        if a.spec_le(b) {
            b
        } else {
            a
        }
    }

    /// The integer `x` is at or above this bound.
    pub open spec fn at_most(self, x: int) -> bool {
        match self {
            Bound::MinusInfinity => true,
            Bound::Int(i) => i <= x,
            Bound::PlusInfinity => false,
        }
    }

    /// The integer `x` is at or below this bound.
    pub open spec fn at_least(self, x: int) -> bool {
        match self {
            Bound::MinusInfinity => false,
            Bound::Int(i) => x <= i,
            Bound::PlusInfinity => true,
        }
    }

    pub open spec fn add_fits(self, i: int) -> bool {
        self matches Bound::Int(v) ==> in_i64(v + i)
    }

    pub open spec fn spec_add_int(self, i: int) -> Bound {
        match self {
            Bound::Int(v) => Bound::Int((v + i) as i64),
            other => other,
        }
    }

    pub open spec fn spec_minus(self) -> Bound {
        match self {
            Bound::MinusInfinity => Bound::PlusInfinity,
            Bound::Int(i) => Bound::Int((-i) as i64),
            Bound::PlusInfinity => Bound::MinusInfinity,
        }
    }

    /// At or below, with the infinities at the ends.
    pub fn le(&self, other: &Bound) -> (b: bool)
        ensures
            b == self.spec_le(*other),
    {
        match (self, other) {
            (Bound::MinusInfinity, _) => true,
            (_, Bound::PlusInfinity) => true,
            (Bound::PlusInfinity, _) => false,
            (_, Bound::MinusInfinity) => false,
            (Bound::Int(a), Bound::Int(b)) => *a <= *b,
        }
    }

    /// Strictly below, with the infinities at the ends.
    pub fn lt(&self, other: &Bound) -> (b: bool)
        ensures
            b == self.spec_lt(*other),
    {
        match (self, other) {
            (Bound::MinusInfinity, Bound::MinusInfinity) => false,
            (Bound::PlusInfinity, Bound::PlusInfinity) => false,
            (Bound::MinusInfinity, _) => true,
            (_, Bound::PlusInfinity) => true,
            (Bound::PlusInfinity, _) => false,
            (_, Bound::MinusInfinity) => false,
            (Bound::Int(a), Bound::Int(b)) => *a < *b,
        }
    }

    fn ge(&self, other: &Bound) -> (b: bool)
        ensures
            b == other.spec_le(*self),
    {
        other.le(self)
    }

    fn gt(&self, other: &Bound) -> (b: bool)
        ensures
            b == other.spec_lt(*self),
    {
        other.lt(self)
    }

    fn min(a: &Bound, b: &Bound) -> (r: Bound)
        ensures
            r == Bound::spec_min(*a, *b),
    {
        if a.le(b) {
            *a
        } else {
            *b
        }
    }

    fn max(a: &Bound, b: &Bound) -> (r: Bound)
        ensures
            r == Bound::spec_max(*a, *b),
    {
        if a.le(b) {
            *b
        } else {
            *a
        }
    }

    fn add_int(&self, i: i64) -> (r: Bound)
        requires
            self.add_fits(i as int),
        ensures
            r == self.spec_add_int(i as int),
    {
        match self {
            Bound::Int(v) => Bound::Int(*v + i),
            other => *other,
        }
    }

    fn minus(&self) -> (r: Bound)
        requires
            self != Bound::Int(i64::MIN),
        ensures
            r == self.spec_minus(),
    {
        match self {
            Bound::MinusInfinity => Bound::PlusInfinity,
            Bound::Int(i) => Bound::Int(-*i),
            Bound::PlusInfinity => Bound::MinusInfinity,
        }
    }

    /// The variant's name, with the number in parentheses.
    pub open spec fn text(self) -> Seq<char> {
        match self {
            Bound::Int(i) => "Int("@ + crate::text::int_text(i as int) + ")"@,
            Bound::MinusInfinity => "MinusInfinity"@,
            Bound::PlusInfinity => "PlusInfinity"@,
        }
    }

    fn push_text(&self, out: &mut String)
        ensures
            final(out)@ == old(out)@ + self.text(),
    {
        let ghost before = out@;
        match self {
            Bound::Int(i) => {
                out.append("Int(");
                push_int(out, *i);
                out.append(")");
            },
            Bound::MinusInfinity => out.append("MinusInfinity"),
            Bound::PlusInfinity => out.append("PlusInfinity"),
        }
        assert(out@ =~= before + self.text());
    }
}

/// A concrete integer interval.
#[derive(Clone, Copy, Debug, PartialEq, Eq, Structural)]
pub enum CItv {
    /// Value is in `[lower, upper]`.
    Between(Bound, Bound),
    /// Value is not in `[l, u]` (that is, value < l or value > u).
    Outside(i64, i64),
}

/// Result of abducing a comparison constraint.
#[derive(Clone, Copy, Debug, PartialEq, Eq, Structural)]
pub enum AbductionResult {
    /// The assertion can never be true.
    Unsatisfiable,
    /// The assertion can be true; optionally refine lhs and/or rhs.
    Satisfiable(Option<CItv>, Option<CItv>),
}

impl AbductionResult {
    /// No refinement on either side drops `x` on the left or `y` on the right.
    pub open spec fn admits(self, x: int, y: int) -> bool {
        self matches AbductionResult::Satisfiable(l, r) && (l matches Some(i) ==> i.has(x)) && (
        r matches Some(i) ==> i.has(y))
    }

    pub open spec fn flipped(self) -> AbductionResult {
        match self {
            AbductionResult::Unsatisfiable => AbductionResult::Unsatisfiable,
            AbductionResult::Satisfiable(l, r) => AbductionResult::Satisfiable(r, l),
        }
    }
}

impl CItv {
    /// The integers of the interval.
    pub open spec fn has(self, x: int) -> bool {
        match self {
            CItv::Between(l, u) => l.at_most(x) && u.at_least(x),
            CItv::Outside(l, u) => x < l || x > u,
        }
    }

    pub open spec fn singleton(self) -> Option<i64> {
        match self {
            CItv::Between(Bound::Int(l), Bound::Int(u)) => if l == u {
                Some(l)
            } else {
                None
            },
            _ => None,
        }
    }

    pub open spec fn add_fits(self, i: int) -> bool {
        match self {
            CItv::Between(l, u) => l.add_fits(i) && u.add_fits(i),
            CItv::Outside(l, u) => in_i64(l + i) && in_i64(u + i),
        }
    }

    pub open spec fn shifted(self, i: int) -> CItv {
        match self {
            CItv::Between(l, u) => CItv::Between(l.spec_add_int(i), u.spec_add_int(i)),
            CItv::Outside(l, u) => CItv::Outside((l + i) as i64, (u + i) as i64),
        }
    }

    /// No finite bound is the least 64-bit integer, which has no negation.
    pub open spec fn negate_fits(self) -> bool {
        match self {
            CItv::Between(l, u) => l != Bound::Int(i64::MIN) && u != Bound::Int(i64::MIN),
            CItv::Outside(l, u) => l != i64::MIN && u != i64::MIN,
        }
    }

    pub open spec fn negated(self) -> CItv {
        match self {
            CItv::Between(l, u) => CItv::Between(u.spec_minus(), l.spec_minus()),
            CItv::Outside(l, u) => CItv::Outside((-u) as i64, (-l) as i64),
        }
    }

    /// Create an interval equal to a single integer.
    pub fn equal_to(i: i64) -> (r: Self)
        ensures
            r == CItv::Between(Bound::Int(i), Bound::Int(i)),
            forall|x: int| r.has(x) <==> x == i,
    {
        CItv::Between(Bound::Int(i), Bound::Int(i))
    }

    /// Create the "not equal to" interval for a single integer.
    pub fn not_equal_to(i: i64) -> (r: Self)
        ensures
            r == CItv::Outside(i, i),
            forall|x: int| r.has(x) <==> x != i,
    {
        CItv::Outside(i, i)
    }

    /// The universal interval: all integers.
    pub fn top() -> (r: Self)
        ensures
            r == CItv::Between(Bound::MinusInfinity, Bound::PlusInfinity),
            forall|x: int| r.has(x),
    {
        CItv::Between(Bound::MinusInfinity, Bound::PlusInfinity)
    }

    /// Check if this is a singleton and return its value.
    pub fn to_singleton(&self) -> (r: Option<i64>)
        ensures
            r == self.singleton(),
            r matches Some(v) ==> forall|x: int| self.has(x) <==> x == v,
    {
        match self {
            CItv::Between(Bound::Int(l), Bound::Int(u)) => if *l == *u {
                Some(*l)
            } else {
                None
            },
            _ => None,
        }
    }

    /// Check if this represents exactly zero.
    pub fn is_equal_to_zero(&self) -> (b: bool)
        ensures
            b == (self.singleton() == Some(0i64)),
    {
        match self.to_singleton() {
            Some(v) => v == 0,
            None => false,
        }
    }

    /// Add an integer offset to the interval.
    fn add_int(&self, i: i64) -> (r: Self)
        requires
            self.add_fits(i as int),
        ensures
            r == self.shifted(i as int),
    {
        match self {
            CItv::Between(l, u) => CItv::Between(l.add_int(i), u.add_int(i)),
            CItv::Outside(l, u) => CItv::Outside(*l + i, *u + i),
        }
    }

    /// Negate the interval.
    pub fn negate(&self) -> (r: Self)
        requires
            self.negate_fits(),
        ensures
            r == self.negated(),
    {
        match self {
            CItv::Between(l, u) => CItv::Between(u.minus(), l.minus()),
            CItv::Outside(l, u) => CItv::Outside(-*u, -*l),
        }
    }

    /// The refinement of two intervals whose values are equal, when `a` is a
    /// range and `b` excludes one: cut `a` at the excluded range, keep it when
    /// the excluded range lies strictly inside, and fail when it covers `a`.
    pub open spec fn eq_between_outside(l1: Bound, u1: Bound, l2: i64, u2: i64) -> AbductionResult {
        if l1.spec_lt(Bound::Int(l2)) && Bound::Int(u2).spec_lt(u1) {
            if l1 is MinusInfinity && u1 is PlusInfinity {
                AbductionResult::Satisfiable(Some(CItv::Outside(l2, u2)), None)
            } else {
                AbductionResult::Satisfiable(None, None)
            }
        } else if Bound::Int(l2).spec_le(l1) && u1.spec_le(Bound::Int(u2)) {
            AbductionResult::Unsatisfiable
        } else if l1.spec_lt(Bound::Int(l2)) {
            let t = CItv::Between(l1, Bound::spec_min(u1, Bound::Int((l2 - 1) as i64)));
            AbductionResult::Satisfiable(Some(t), Some(t))
        } else {
            let t = CItv::Between(Bound::spec_max(l1, Bound::Int((u2 + 1) as i64)), u1);
            AbductionResult::Satisfiable(Some(t), Some(t))
        }
    }

    /// The cut of a range at an excluded range stays among 64-bit integers.
    pub open spec fn cut_fits(l1: Bound, u1: Bound, l2: i64, u2: i64) -> bool {
        &&& !(l1 is MinusInfinity && l2 == i64::MIN && u1.spec_le(Bound::Int(u2)))
        &&& !(u1 is PlusInfinity && u2 == i64::MAX && Bound::Int(l2).spec_le(l1))
    }

    pub open spec fn eq_fits(self, other: CItv) -> bool {
        match (self, other) {
            (CItv::Between(l1, u1), CItv::Outside(l2, u2)) => CItv::cut_fits(l1, u1, l2, u2),
            (CItv::Outside(l2, u2), CItv::Between(l1, u1)) => CItv::cut_fits(l1, u1, l2, u2),
            _ => true,
        }
    }

    pub open spec fn eq_abduced(self, other: CItv) -> AbductionResult {
        match (self, other) {
            (CItv::Between(l1, u1), CItv::Between(l2, u2)) => {
                let lower = Bound::spec_max(l1, l2);
                let upper = Bound::spec_min(u1, u2);
                if upper.spec_lt(lower) {
                    AbductionResult::Unsatisfiable
                } else {
                    let t = CItv::Between(lower, upper);
                    AbductionResult::Satisfiable(Some(t), Some(t))
                }
            },
            (CItv::Outside(l1, u1), CItv::Outside(l2, u2)) => if l1 <= u2 && l2 <= u1 {
                let t = CItv::Outside(
                    if l1 <= l2 {
                        l1
                    } else {
                        l2
                    },
                    if u1 >= u2 {
                        u1
                    } else {
                        u2
                    },
                );
                AbductionResult::Satisfiable(Some(t), Some(t))
            } else {
                AbductionResult::Satisfiable(None, None)
            },
            (CItv::Between(l1, u1), CItv::Outside(l2, u2)) => CItv::eq_between_outside(
                l1,
                u1,
                l2,
                u2,
            ),
            (CItv::Outside(l2, u2), CItv::Between(l1, u1)) => CItv::eq_between_outside(
                l1,
                u1,
                l2,
                u2,
            ).flipped(),
        }
    }

    /// The intersection that `intersection` reports; `None` when empty.
    pub open spec fn meet(self, other: CItv) -> Option<CItv> {
        match self.eq_abduced(other) {
            AbductionResult::Unsatisfiable => None,
            AbductionResult::Satisfiable(Some(i), _) => Some(i),
            AbductionResult::Satisfiable(None, Some(i)) => Some(i),
            AbductionResult::Satisfiable(None, None) => Some(self),
        }
    }

    /// Intersect two intervals. Returns None if empty.
    pub fn intersection(&self, other: &CItv) -> (r: Option<CItv>)
        requires
            self.eq_fits(*other),
        ensures
            r == self.meet(*other),
            forall|x: int| self.has(x) && other.has(x) ==> (r matches Some(i) && i.has(x)),
    {
        proof {
            assert forall|x: int| self.has(x) && other.has(x) implies (self.meet(*other) matches Some(
                i,
            ) && i.has(x)) by {
                lemma_eq_abduced(*self, *other, x);
            }
        }
        match self.abduce_eq(other) {
            AbductionResult::Unsatisfiable => None,
            AbductionResult::Satisfiable(Some(i), _) => Some(i),
            AbductionResult::Satisfiable(None, Some(i)) => Some(i),
            AbductionResult::Satisfiable(None, None) => Some(*self),
        }
    }

    /// The bounds of sums: componentwise, undefined for opposite infinities.
    pub open spec fn bound_sum(a: Bound, b: Bound) -> Option<Bound> {
        match (a, b) {
            (Bound::Int(x), Bound::Int(y)) => Some(Bound::Int((x + y) as i64)),
            (Bound::MinusInfinity, Bound::PlusInfinity) => None,
            (Bound::PlusInfinity, Bound::MinusInfinity) => None,
            (Bound::MinusInfinity, _) => Some(Bound::MinusInfinity),
            (_, Bound::MinusInfinity) => Some(Bound::MinusInfinity),
            _ => Some(Bound::PlusInfinity),
        }
    }

    pub open spec fn bound_sum_fits(a: Bound, b: Bound) -> bool {
        a matches Bound::Int(x) ==> b matches Bound::Int(y) ==> in_i64(x + y)
    }

    pub open spec fn sum(a: CItv, b: CItv) -> Option<CItv> {
        match (a, b) {
            (CItv::Between(l1, u1), CItv::Between(l2, u2)) => match (
                CItv::bound_sum(l1, l2),
                CItv::bound_sum(u1, u2),
            ) {
                (Some(l), Some(u)) => Some(CItv::Between(l, u)),
                _ => None,
            },
            _ => None,
        }
    }

    /// The sum is computed without leaving the 64-bit integers; the upper
    /// bounds are not added when the lower bounds have no sum.
    pub open spec fn sum_fits(a: CItv, b: CItv) -> bool {
        match (a, b) {
            (CItv::Between(l1, u1), CItv::Between(l2, u2)) => CItv::bound_sum_fits(l1, l2) && (
            CItv::bound_sum(l1, l2) is Some ==> CItv::bound_sum_fits(u1, u2)),
            _ => true,
        }
    }

    /// The result interval of a binary operation: sums and differences of
    /// ranges, nothing otherwise.
    pub open spec fn binop_result(bop: Binop, lhs: CItv, rhs: CItv) -> Option<CItv> {
        match bop {
            Binop::PlusA(_) | Binop::PlusPI => CItv::sum(lhs, rhs),
            Binop::MinusA(_) | Binop::MinusPI | Binop::MinusPP => CItv::sum(lhs, rhs.negated()),
            _ => None,
        }
    }

    pub open spec fn binop_fits(bop: Binop, lhs: CItv, rhs: CItv) -> bool {
        match bop {
            Binop::PlusA(_) | Binop::PlusPI => CItv::sum_fits(lhs, rhs),
            Binop::MinusA(_) | Binop::MinusPI | Binop::MinusPP => rhs.negate_fits()
                && CItv::sum_fits(lhs, rhs.negated()),
            _ => true,
        }
    }

    /// Compute the result interval of a binary operation.
    pub fn binop(bop: &Binop, lhs: &CItv, rhs: &CItv) -> (r: Option<CItv>)
        requires
            CItv::binop_fits(*bop, *lhs, *rhs),
        ensures
            r == CItv::binop_result(*bop, *lhs, *rhs),
    {
        match bop {
            Binop::PlusA(_) | Binop::PlusPI => Self::add(lhs, rhs),
            Binop::MinusA(_) | Binop::MinusPI | Binop::MinusPP => {
                let neg = rhs.negate();
                Self::add(lhs, &neg)
            },
            _ => None,
        }
    }

    /// Add two intervals.
    fn add(a: &CItv, b: &CItv) -> (r: Option<CItv>)
        requires
            CItv::sum_fits(*a, *b),
        ensures
            r == CItv::sum(*a, *b),
    {
        match (a, b) {
            (CItv::Between(l1, u1), CItv::Between(l2, u2)) => {
                match bound_add(l1, l2) {
                    None => None,
                    Some(lower) => match bound_add(u1, u2) {
                        None => None,
                        Some(upper) => Some(CItv::Between(lower, upper)),
                    },
                }
            },
            _ => None,
        }
    }

    /// Abduce equality: can a1 == a2?
    pub fn abduce_eq(&self, other: &CItv) -> (r: AbductionResult)
        requires
            self.eq_fits(*other),
        ensures
            r == self.eq_abduced(*other),
    {
        match (self, other) {
            (CItv::Between(l1, u1), CItv::Between(l2, u2)) => {
                let lower = Bound::max(l1, l2);
                let upper = Bound::min(u1, u2);
                if upper.lt(&lower) {
                    AbductionResult::Unsatisfiable
                } else {
                    let tighter = CItv::Between(lower, upper);
                    AbductionResult::Satisfiable(Some(tighter), Some(tighter))
                }
            },
            (CItv::Outside(l1, u1), CItv::Outside(l2, u2)) => {
                if *l1 <= *u2 && *l2 <= *u1 {
                    let l: i64 = if *l1 <= *l2 {
                        *l1
                    } else {
                        *l2
                    };
                    let u: i64 = if *u1 >= *u2 {
                        *u1
                    } else {
                        *u2
                    };
                    let tighter = CItv::Outside(l, u);
                    AbductionResult::Satisfiable(Some(tighter), Some(tighter))
                } else {
                    AbductionResult::Satisfiable(None, None)
                }
            },
            (CItv::Outside(l2, u2), CItv::Between(l1, u1)) => {
                flip_abduced(Self::abduce_eq_between_outside(l1, u1, *l2, *u2))
            },
            (CItv::Between(l1, u1), CItv::Outside(l2, u2)) => {
                Self::abduce_eq_between_outside(l1, u1, *l2, *u2)
            },
        }
    }

    fn abduce_eq_between_outside(l1: &Bound, u1: &Bound, l2: i64, u2: i64) -> (r: AbductionResult)
        requires
            CItv::cut_fits(*l1, *u1, l2, u2),
        ensures
            r == CItv::eq_between_outside(*l1, *u1, l2, u2),
    {
        if l1.lt(&Bound::Int(l2)) && u1.gt(&Bound::Int(u2)) {
            if matches!((l1, u1), (Bound::MinusInfinity, Bound::PlusInfinity)) {
                AbductionResult::Satisfiable(Some(CItv::Outside(l2, u2)), None)
            } else {
                AbductionResult::Satisfiable(None, None)
            }
        } else if l1.ge(&Bound::Int(l2)) && u1.le(&Bound::Int(u2)) {
            AbductionResult::Unsatisfiable
        } else if l1.lt(&Bound::Int(l2)) {
            let upper = Bound::min(u1, &Bound::Int(l2 - 1));
            let tighter = CItv::Between(*l1, upper);
            AbductionResult::Satisfiable(Some(tighter), Some(tighter))
        } else {
            let lower = Bound::max(l1, &Bound::Int(u2 + 1));
            let tighter = CItv::Between(lower, *u1);
            AbductionResult::Satisfiable(Some(tighter), Some(tighter))
        }
    }

    /// The interval without the element `e`, where one interval can say so.
    pub open spec fn without(self, e: i64) -> Option<CItv> {
        match self {
            CItv::Between(l, u) => if l == u {
                None
            } else if l == Bound::Int(e) {
                Some(CItv::Between(Bound::Int((e + 1) as i64), u))
            } else if u == Bound::Int(e) {
                Some(CItv::Between(l, Bound::Int((e - 1) as i64)))
            } else if l is MinusInfinity && u is PlusInfinity {
                Some(CItv::Outside(e, e))
            } else {
                None
            },
            CItv::Outside(l, u) => if e == l - 1 {
                Some(CItv::Outside(e, u))
            } else if e == u + 1 {
                Some(CItv::Outside(l, e))
            } else {
                None
            },
        }
    }

    pub open spec fn without_fits(self, e: i64) -> bool {
        match self {
            CItv::Between(l, u) => l == u || ((l == Bound::Int(e) ==> e < i64::MAX) && (u
                == Bound::Int(e) && l != Bound::Int(e) ==> e > i64::MIN)),
            CItv::Outside(l, u) => l > i64::MIN && (e == l - 1 || u < i64::MAX),
        }
    }

    pub open spec fn ne_fits(self, other: CItv) -> bool {
        self.eq_fits(other) && (self.meet(other) is Some ==> match (
            self.singleton(),
            other.singleton(),
        ) {
            (Some(e), None) => other.without_fits(e),
            (None, Some(e)) => self.without_fits(e),
            _ => true,
        })
    }

    pub open spec fn ne_abduced(self, other: CItv) -> AbductionResult {
        if self.meet(other) is None {
            AbductionResult::Satisfiable(None, None)
        } else {
            match (self.singleton(), other.singleton()) {
                (Some(_), Some(_)) => AbductionResult::Unsatisfiable,
                (Some(e), None) => AbductionResult::Satisfiable(None, other.without(e)),
                (None, Some(e)) => AbductionResult::Satisfiable(self.without(e), None),
                (None, None) => AbductionResult::Satisfiable(None, None),
            }
        }
    }

    /// Abduce disequality: can a1 != a2?
    pub fn abduce_ne(&self, other: &CItv) -> (r: AbductionResult)
        requires
            self.ne_fits(*other),
        ensures
            r == self.ne_abduced(*other),
    {
        if self.intersection(other).is_none() {
            AbductionResult::Satisfiable(None, None)
        } else {
            match (self.to_singleton(), other.to_singleton()) {
                (Some(_), Some(_)) => AbductionResult::Unsatisfiable,
                (Some(e), None) => AbductionResult::Satisfiable(None, remove_element(e, other)),
                (None, Some(e)) => AbductionResult::Satisfiable(remove_element(e, self), None),
                (None, None) => AbductionResult::Satisfiable(None, None),
            }
        }
    }

    pub open spec fn le_abduced(self, other: CItv) -> AbductionResult {
        match (self, other) {
            (CItv::Between(l1, u1), CItv::Between(l2, u2)) => {
                let min_u = Bound::spec_min(u1, u2);
                let max_l = Bound::spec_max(l1, l2);
                if min_u.spec_lt(l1) || u2.spec_lt(max_l) {
                    AbductionResult::Unsatisfiable
                } else {
                    AbductionResult::Satisfiable(
                        Some(CItv::Between(l1, min_u)),
                        Some(CItv::Between(max_l, u2)),
                    )
                }
            },
            _ => AbductionResult::Satisfiable(None, None),
        }
    }

    /// Abduce less-than-or-equal: can a1 <= a2?
    pub fn abduce_le(&self, other: &CItv) -> (r: AbductionResult)
        ensures
            r == self.le_abduced(*other),
    {
        match (self, other) {
            (CItv::Between(l1, u1), CItv::Between(l2, u2)) => {
                let min_u = Bound::min(u1, u2);
                let max_l = Bound::max(l1, l2);
                if min_u.lt(l1) || u2.lt(&max_l) {
                    AbductionResult::Unsatisfiable
                } else {
                    AbductionResult::Satisfiable(
                        Some(CItv::Between(*l1, min_u)),
                        Some(CItv::Between(max_l, *u2)),
                    )
                }
            },
            _ => AbductionResult::Satisfiable(None, None),
        }
    }

    /// `a < b` is `a + 1 <= b`, with the refinement of the left side shifted
    /// back.
    pub open spec fn lt_abduced(self, other: CItv) -> AbductionResult {
        match self.shifted(1).le_abduced(other) {
            AbductionResult::Satisfiable(Some(a), b) => AbductionResult::Satisfiable(
                Some(a.shifted(-1)),
                b,
            ),
            r => r,
        }
    }

    pub open spec fn lt_fits(self, other: CItv) -> bool {
        self.add_fits(1) && (self.shifted(1).le_abduced(other) matches AbductionResult::Satisfiable(
            Some(a),
            _,
        ) ==> a.add_fits(-1))
    }

    /// Abduce strict less-than: can a1 < a2?
    pub fn abduce_lt(&self, other: &CItv) -> (r: AbductionResult)
        requires
            self.lt_fits(*other),
        ensures
            r == self.lt_abduced(*other),
    {
        let a1_plus_1 = self.add_int(1);
        match a1_plus_1.abduce_le(other) {
            AbductionResult::Satisfiable(Some(abduced1), abduced2) => {
                AbductionResult::Satisfiable(Some(abduced1.add_int(-1)), abduced2)
            },
            r => r,
        }
    }

    /// An unknown interval holds all integers.
    pub open spec fn or_top(v: Option<&CItv>) -> CItv {
        match v {
            Some(i) => *i,
            None => CItv::Between(Bound::MinusInfinity, Bound::PlusInfinity),
        }
    }

    pub open spec fn binop_abduced(negated: bool, bop: Binop, a1: CItv, a2: CItv) -> AbductionResult {
        match (bop, negated) {
            (Binop::Eq, false) | (Binop::Ne, true) => a1.eq_abduced(a2),
            (Binop::Eq, true) | (Binop::Ne, false) => a1.ne_abduced(a2),
            (Binop::Le, false) | (Binop::Gt, true) => a1.le_abduced(a2),
            (Binop::Ge, false) | (Binop::Lt, true) => a2.le_abduced(a1).flipped(),
            (Binop::Lt, false) | (Binop::Ge, true) => a1.lt_abduced(a2),
            (Binop::Gt, false) | (Binop::Le, true) => a2.lt_abduced(a1).flipped(),
            _ => AbductionResult::Satisfiable(None, None),
        }
    }

    pub open spec fn binop_abduce_fits(negated: bool, bop: Binop, a1: CItv, a2: CItv) -> bool {
        match (bop, negated) {
            (Binop::Eq, false) | (Binop::Ne, true) => a1.eq_fits(a2),
            (Binop::Eq, true) | (Binop::Ne, false) => a1.ne_fits(a2),
            (Binop::Lt, false) | (Binop::Ge, true) => a1.lt_fits(a2),
            (Binop::Gt, false) | (Binop::Le, true) => a2.lt_fits(a1),
            _ => true,
        }
    }

    /// Abduce a binary comparison constraint.
    ///
    /// Given intervals for lhs and rhs and a comparison operator, returns
    /// whether the comparison is satisfiable and optionally refined intervals.
    pub fn abduce_binop_is_true(
        negated: bool,
        bop: &Binop,
        v1: Option<&CItv>,
        v2: Option<&CItv>,
    ) -> (r: AbductionResult)
        requires
            CItv::binop_abduce_fits(
                negated,
                *bop,
                CItv::or_top(v1),
                CItv::or_top(v2),
            ),
        ensures
            r == CItv::binop_abduced(
                negated,
                *bop,
                CItv::or_top(v1),
                CItv::or_top(v2),
            ),
    {
        let a1 = match v1 {
            Some(i) => *i,
            None => CItv::top(),
        };
        let a2 = match v2 {
            Some(i) => *i,
            None => CItv::top(),
        };
        match (*bop, negated) {
            (Binop::Eq, false) | (Binop::Ne, true) => a1.abduce_eq(&a2),
            (Binop::Eq, true) | (Binop::Ne, false) => a1.abduce_ne(&a2),
            (Binop::Le, false) | (Binop::Gt, true) => a1.abduce_le(&a2),
            (Binop::Ge, false) | (Binop::Lt, true) => flip_abduced(a2.abduce_le(&a1)),
            (Binop::Lt, false) | (Binop::Ge, true) => a1.abduce_lt(&a2),
            (Binop::Gt, false) | (Binop::Le, true) => flip_abduced(a2.abduce_lt(&a1)),
            _ => AbductionResult::Satisfiable(None, None),
        }
    }

    /// How the interval is shown.
    pub open spec fn text(self) -> Seq<char> {
        match self {
            CItv::Between(l, u) => if l is MinusInfinity && u is PlusInfinity {
                "∈ℤ"@
            } else if u is PlusInfinity {
                "≥"@ + l.text()
            } else if l is MinusInfinity {
                "≤"@ + u.text()
            } else if l == u {
                "="@ + l.text()
            } else {
                "∈["@ + l.text() + ","@ + u.text() + "]"@
            },
            CItv::Outside(l, u) => if l == u {
                "≠"@ + crate::text::int_text(l as int)
            } else {
                "∉["@ + crate::text::int_text(l as int) + ","@ + crate::text::int_text(u as int)
                    + "]"@
            },
        }
    }

    pub fn to_string(&self) -> (s: String)
        ensures
            s@ == self.text(),
    {
        let mut s = String::new();
        match self {
            CItv::Between(l, u) => {
                if matches!((l, u), (Bound::MinusInfinity, Bound::PlusInfinity)) {
                    s.append("∈ℤ");
                } else if matches!(u, Bound::PlusInfinity) {
                    s.append("≥");
                    l.push_text(&mut s);
                } else if matches!(l, Bound::MinusInfinity) {
                    s.append("≤");
                    u.push_text(&mut s);
                } else if *l == *u {
                    s.append("=");
                    l.push_text(&mut s);
                } else {
                    s.append("∈[");
                    l.push_text(&mut s);
                    s.append(",");
                    u.push_text(&mut s);
                    s.append("]");
                }
            },
            CItv::Outside(l, u) => {
                if *l == *u {
                    s.append("≠");
                    push_int(&mut s, *l);
                } else {
                    s.append("∉[");
                    push_int(&mut s, *l);
                    s.append(",");
                    push_int(&mut s, *u);
                    s.append("]");
                }
            },
        }
        assert(s@ =~= self.text());
        s
    }
}

fn flip_abduced(r: AbductionResult) -> (f: AbductionResult)
    ensures
        f == r.flipped(),
{
    match r {
        AbductionResult::Unsatisfiable => AbductionResult::Unsatisfiable,
        AbductionResult::Satisfiable(l, r) => AbductionResult::Satisfiable(r, l),
    }
}

fn bound_add(a: &Bound, b: &Bound) -> (r: Option<Bound>)
    requires
        CItv::bound_sum_fits(*a, *b),
    ensures
        r == CItv::bound_sum(*a, *b),
{
    match (a, b) {
        (Bound::Int(x), Bound::Int(y)) => Some(Bound::Int(*x + *y)),
        (Bound::MinusInfinity, Bound::PlusInfinity) => None,
        (Bound::PlusInfinity, Bound::MinusInfinity) => None,
        (Bound::MinusInfinity, _) => Some(Bound::MinusInfinity),
        (_, Bound::MinusInfinity) => Some(Bound::MinusInfinity),
        (Bound::PlusInfinity, _) => Some(Bound::PlusInfinity),
        (_, Bound::PlusInfinity) => Some(Bound::PlusInfinity),
    }
}

fn remove_element(e: i64, from: &CItv) -> (r: Option<CItv>)
    requires
        from.without_fits(e),
    ensures
        r == from.without(e),
{
    match from {
        CItv::Between(l, u) => {
            if *l == *u {
                return None;
            }
            if let Bound::Int(lv) = l {
                if *lv == e {
                    return Some(CItv::Between(Bound::Int(*lv + 1), *u));
                }
            }
            if let Bound::Int(uv) = u {
                if *uv == e {
                    return Some(CItv::Between(*l, Bound::Int(*uv - 1)));
                }
            }
            if matches!((l, u), (Bound::MinusInfinity, Bound::PlusInfinity)) {
                Some(CItv::not_equal_to(e))
            } else {
                None
            }
        },
        CItv::Outside(l, u) => {
            if e == *l - 1 {
                Some(CItv::Outside(e, *u))
            } else if e == *u + 1 {
                Some(CItv::Outside(*l, e))
            } else {
                None
            }
        },
    }
}

/// Abducing an equality loses no common value: it fails only when there is
/// none, and both refinements keep all of them.
pub proof fn lemma_eq_abduced(a: CItv, b: CItv, x: int)
    requires
        a.eq_fits(b),
        a.has(x),
        b.has(x),
    ensures
        a.eq_abduced(b).admits(x, x),
{
}

/// Abducing a disequality loses no pair of distinct values.
pub proof fn lemma_ne_abduced(a: CItv, b: CItv, x: int, y: int)
    requires
        a.ne_fits(b),
        a.has(x),
        b.has(y),
        x != y,
    ensures
        a.ne_abduced(b).admits(x, y),
{
}

/// Abducing `<=` loses no pair of ordered values.
pub proof fn lemma_le_abduced(a: CItv, b: CItv, x: int, y: int)
    requires
        a.has(x),
        b.has(y),
        x <= y,
    ensures
        a.le_abduced(b).admits(x, y),
{
}

/// Abducing `<` loses no pair of strictly ordered values.
pub proof fn lemma_lt_abduced(a: CItv, b: CItv, x: int, y: int)
    requires
        a.lt_fits(b),
        a.has(x),
        b.has(y),
        x < y,
    ensures
        a.lt_abduced(b).admits(x, y),
{
    assert(a.shifted(1).has(x + 1));
    lemma_le_abduced(a.shifted(1), b, x + 1, y);
}

/// Abducing a comparison never loses a pair of values for which the
/// comparison has the asked truth value.
pub proof fn lemma_binop_abduced(negated: bool, bop: Binop, a: CItv, b: CItv, x: int, y: int)
    requires
        CItv::binop_abduce_fits(negated, bop, a, b),
        a.has(x),
        b.has(y),
        bop.holds(x, y) matches Some(h) ==> h == !negated,
    ensures
        CItv::binop_abduced(negated, bop, a, b).admits(x, y),
{
    if x == y {
        if a.eq_fits(b) {
            lemma_eq_abduced(a, b, x);
        }
    } else {
        if a.ne_fits(b) {
            lemma_ne_abduced(a, b, x, y);
        }
    }
    if x <= y {
        lemma_le_abduced(a, b, x, y);
    }
    if y <= x {
        lemma_le_abduced(b, a, y, x);
    }
    if x < y && a.lt_fits(b) {
        lemma_lt_abduced(a, b, x, y);
    }
    if y < x && b.lt_fits(a) {
        lemma_lt_abduced(b, a, y, x);
    }
}

/// The interval of a sum or difference holds every sum or difference of
/// values of the operands.
pub proof fn lemma_binop_result(bop: Binop, a: CItv, b: CItv, x: int, y: int)
    requires
        CItv::binop_fits(bop, a, b),
        a.has(x),
        b.has(y),
        CItv::binop_result(bop, a, b) is Some,
    ensures
        bop is PlusA || bop is PlusPI ==> CItv::binop_result(bop, a, b)->0.has(x + y),
        bop is MinusA || bop is MinusPI || bop is MinusPP ==> CItv::binop_result(
            bop,
            a,
            b,
        )->0.has(x - y),
{
}

/// An integer is in the negation of an interval where its negation is in the
/// interval, and negating twice changes nothing.
pub proof fn law_negated(a: CItv, z: int)
    requires
        a.negate_fits(),
    ensures
        a.negated().has(z) <==> a.has(-z),
        a.negated().negate_fits(),
        a.negated().negated() == a,
{
}

/// The order of bounds is total and transitive, with the infinities at its ends.
pub proof fn law_bound_order(a: Bound, b: Bound, c: Bound, i: i64)
    ensures
        a.spec_lt(b) == !b.spec_le(a),
        a.spec_lt(b) || a == b || b.spec_lt(a),
        !(a.spec_lt(b) && b.spec_lt(a)),
        !a.spec_lt(a),
        a.spec_lt(b) && b.spec_lt(c) ==> a.spec_lt(c),
        a.spec_le(b) <==> a.spec_lt(b) || a == b,
        Bound::MinusInfinity.spec_lt(Bound::Int(i)),
        Bound::Int(i).spec_lt(Bound::PlusInfinity),
{
}

} // verus!
