//! How exact the ranges are: what refining them keeps and what it rules out.

use super::citv::{AbductionResult, Bound, CItv};
use crate::binop::Binop;
use vstd::prelude::*;

verus! {

/// An intersection never has an integer that the first range does not have. That of
/// two intervals, and of two overlapping gaps, has exactly the integers of both; where
/// it is empty they have none in common.
pub proof fn law_intersection(a: CItv, b: CItv, x: int)
    requires
        a.eq_fits(b),
    ensures
        a.meet(b) matches Some(c) ==> (c.has(x) ==> a.has(x)),
        a is Between && b is Between ==> match a.meet(b) {
            Some(c) => c.has(x) <==> a.has(x) && b.has(x),
            None => !(a.has(x) && b.has(x)),
        },
        a matches CItv::Outside(l, u) ==> (b matches CItv::Outside(m, v) ==> l <= u && m <= v && l
            <= v && m <= u ==> (a.meet(b) matches Some(c) && (c.has(x) <==> a.has(x) && b.has(x)))),
        a is Between && (b matches CItv::Outside(l, u) && l <= u) ==> (a.meet(b) is None
            ==> !(a.has(x) && b.has(x))),
{
}

/// Cutting an interval at a gap that covers one of its ends leaves what lies outside
/// the gap.
pub proof fn law_cut(l: Bound, u: Bound, m: i64, v: i64, x: int)
    requires
        m <= v,
        CItv::Between(l, u).eq_fits(CItv::Outside(m, v)),
        !(l.spec_lt(Bound::Int(m)) && Bound::Int(v).spec_lt(u)),
    ensures
        match CItv::Between(l, u).meet(CItv::Outside(m, v)) {
            Some(c) => c.has(x) <==> CItv::Between(l, u).has(x) && CItv::Outside(m, v).has(x),
            None => !(CItv::Between(l, u).has(x) && CItv::Outside(m, v).has(x)),
        },
{
}

/// Refining two intervals by `<=` keeps of each side exactly what the far end of the
/// other admits.
pub proof fn law_at_most(l1: Bound, u1: Bound, l2: Bound, u2: Bound, x: int)
    ensures
        CItv::Between(l1, u1).le_abduced(
            CItv::Between(l2, u2),
        ) matches AbductionResult::Satisfiable(p, q) ==> {
            &&& p matches Some(i) && (i.has(x) <==> CItv::Between(l1, u1).has(x) && u2.at_least(x))
            &&& q matches Some(j) && (j.has(x) <==> CItv::Between(l2, u2).has(x) && l1.at_most(x))
        },
{
}

/// Two ranges that are not empty admit `<=` exactly where some pair of their integers
/// satisfies it.
pub proof fn law_at_most_possible(a: CItv, b: CItv, x: int, y: int)
    requires
        a is Between,
        b is Between,
        a.has(x),
        b.has(y),
    ensures
        a.le_abduced(b) is Satisfiable <==> exists|v: int, w: int|
            v <= w && #[trigger] a.has(v) && #[trigger] b.has(w),
{
    if a.le_abduced(b) is Satisfiable {
        let l = a->Between_0;
        let v = match l {
            Bound::Int(n) => n as int,
            _ => if x <= y {
                x
            } else {
                y
            },
        };
        let w = if v <= y {
            y
        } else {
            v
        };
        assert(a.has(v) && b.has(w) && v <= w);
    }
    if exists|v: int, w: int| v <= w && #[trigger] a.has(v) && #[trigger] b.has(w) {
        let (v, w) = choose|v: int, w: int| v <= w && #[trigger] a.has(v) && #[trigger] b.has(w);
        super::citv::lemma_le_abduced(a, b, v, w);
    }
}

/// Refining two intervals by `<` keeps of each side exactly what is below, or above,
/// the far end of the other.
pub proof fn law_below(l1: Bound, u1: Bound, l2: Bound, u2: Bound, x: int)
    requires
        CItv::Between(l1, u1).lt_fits(CItv::Between(l2, u2)),
    ensures
        CItv::Between(l1, u1).lt_abduced(
            CItv::Between(l2, u2),
        ) matches AbductionResult::Satisfiable(p, q) ==> {
            &&& p matches Some(i) && (i.has(x) <==> CItv::Between(l1, u1).has(x) && u2.at_least(
                x + 1,
            ))
            &&& q matches Some(j) && (j.has(x) <==> CItv::Between(l2, u2).has(x) && l1.at_most(
                x - 1,
            ))
        },
{
}

/// Two ranges that are not empty admit `<` exactly where some pair of their integers
/// satisfies it.
pub proof fn law_below_possible(a: CItv, b: CItv, x: int, y: int)
    requires
        a is Between,
        b is Between,
        a.has(x),
        b.has(y),
        a.lt_fits(b),
    ensures
        a.lt_abduced(b) is Satisfiable <==> exists|v: int, w: int|
            v < w && #[trigger] a.has(v) && #[trigger] b.has(w),
{
    if a.lt_abduced(b) is Satisfiable {
        let l = a->Between_0;
        let v = match l {
            Bound::Int(n) => n as int,
            _ => if x < y {
                x
            } else {
                y - 1
            },
        };
        let w = if v < y {
            y
        } else {
            v + 1
        };
        assert(a.has(v) && b.has(w) && v < w);
    }
    if exists|v: int, w: int| v < w && #[trigger] a.has(v) && #[trigger] b.has(w) {
        let (v, w) = choose|v: int, w: int| v < w && #[trigger] a.has(v) && #[trigger] b.has(w);
        super::citv::lemma_lt_abduced(a, b, v, w);
    }
}

/// Two ranges that are not empty admit `!=` unless both are the same single integer,
/// and a single integer is cut off where it is an end of the other range.
pub proof fn law_different(a: CItv, b: CItv, x: int)
    requires
        a.ne_fits(b),
    ensures
        a.ne_abduced(b) is Unsatisfiable <==> a.meet(b) is Some && a.singleton() is Some
            && b.singleton() is Some,
        a.ne_abduced(b) matches AbductionResult::Satisfiable(Some(p), _) ==> (p.has(x) ==> a.has(
            x,
        )),
        a.ne_abduced(b) matches AbductionResult::Satisfiable(_, Some(q)) ==> (q.has(x) ==> b.has(
            x,
        )),
        a matches CItv::Between(Bound::Int(l), Bound::Int(u)) ==> (b.singleton() matches Some(e)
            ==> l < u && (e == l || e == u) ==> (a.ne_abduced(
            b,
        ) matches AbductionResult::Satisfiable(Some(p), _) && (p.has(x) <==> a.has(x) && x != e))),
{
}

/// The integer of the first interval in a sum of two.
pub open spec fn first_addend(l1: Bound, u1: Bound, l2: Bound, u2: Bound, z: int) -> int {
    match (l1, u2) {
        (Bound::Int(l), Bound::Int(u)) => if l >= z - u {
            l as int
        } else {
            z - u
        },
        (Bound::Int(l), _) => l as int,
        (_, Bound::Int(u)) => z - u,
        _ => match (u1, l2) {
            (Bound::Int(u), Bound::Int(l)) => if u <= z - l {
                u as int
            } else {
                z - l
            },
            (Bound::Int(u), _) => u as int,
            (_, Bound::Int(l)) => z - l,
            _ => 0,
        },
    }
}

/// The range of a sum has exactly the sums of the integers of the two ranges.
pub proof fn law_sum(a: CItv, b: CItv, x: int, y: int, z: int)
    requires
        a.has(x),
        b.has(y),
        CItv::sum_fits(a, b),
    ensures
        CItv::sum(a, b) matches Some(r) ==> (r.has(z) <==> exists|v: int, w: int|
            v + w == z && #[trigger] a.has(v) && #[trigger] b.has(w)),
{
    if let Some(r) = CItv::sum(a, b) {
        if r.has(z) {
            let v = first_addend(a->Between_0, a->Between_1, b->Between_0, b->Between_1, z);
            assert(a.has(v) && b.has(z - v));
        }
    }
}

/// The range of a sum or a difference has its sums, or its differences, and no other
/// operation gives a range.
pub proof fn law_result_range(op: Binop, a: CItv, b: CItv, x: int, y: int, z: int)
    requires
        a.has(x),
        b.has(y),
        CItv::binop_fits(op, a, b),
    ensures
        op is PlusA || op is PlusPI ==> (CItv::binop_result(op, a, b) matches Some(r) ==> (r.has(z)
            <==> exists|v: int, w: int| v + w == z && #[trigger] a.has(v) && #[trigger] b.has(w))),
        op is MinusA || op is MinusPI || op is MinusPP ==> (CItv::binop_result(
            op,
            a,
            b,
        ) matches Some(r) ==> (r.has(z) <==> exists|v: int, w: int|
            v - w == z && #[trigger] a.has(v) && #[trigger] b.has(w))),
        !(op is PlusA || op is PlusPI || op is MinusA || op is MinusPI || op is MinusPP)
            ==> CItv::binop_result(op, a, b) is None,
{
    if op is PlusA || op is PlusPI {
        law_sum(a, b, x, y, z);
    }
    if op is MinusA || op is MinusPI || op is MinusPP {
        let n = b.negated();
        super::citv::law_negated(b, y);
        assert(n.has(-y));
        law_sum(a, n, x, -y, z);
        if let Some(r) = CItv::binop_result(op, a, b) {
            if exists|v: int, w: int| v + w == z && #[trigger] a.has(v) && #[trigger] n.has(w) {
                let (v, w) = choose|v: int, w: int|
                    v + w == z && #[trigger] a.has(v) && #[trigger] n.has(w);
                super::citv::law_negated(b, -w);
                assert(b.has(-w) && v - (-w) == z);
            }
            if exists|v: int, w: int| v - w == z && #[trigger] a.has(v) && #[trigger] b.has(w) {
                let (v, w) = choose|v: int, w: int|
                    v - w == z && #[trigger] a.has(v) && #[trigger] b.has(w);
                super::citv::law_negated(b, w);
                assert(n.has(-w) && v + (-w) == z);
            }
        }
    }
}

} // verus!
