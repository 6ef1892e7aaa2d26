//! What the witnesses of an exported formula stand for, and where they are made.

use super::atom::{atom_holds, Atom};
use super::formula_model::{rewritten_conditions, FormulaModel};
use super::lin_arith::{lin_value, sum, Coeffs, Lin, Valuation};
use super::meaning::is_whole;
use super::solver::{all_pass, lin_vars, passes, used_in_range, PhiModel};
use super::witness::{
    bound_of, export_all, export_one, exported, simplified_for_summary, unused, wants_witness,
    with_values, witness_equation, Exported,
};
use crate::abstract_value::AbstractValue;
use crate::heap_laws::lemma_lookup_filter;
use crate::ordered::{
    lemma_lookup_put, lemma_put_members, lemma_put_sorted, lemma_set_put_contains, lookup, set_put,
    sorted,
};
use vstd::prelude::*;

verus! {

proof fn lemma_witness_value(k: i64, largest: bool, w: AbstractValue, rho: Valuation)
    ensures
        lin_value(witness_equation(k, largest, w), rho) == (if largest {
            k as real - rho(w)
        } else {
            k as real + rho(w)
        }),
{
    let s = witness_equation(k, largest, w).vars;
    assert(s.drop_first() =~= Coeffs::empty());
    assert(sum(s.drop_first(), rho) == 0real);
    let q = s[0].1;
    let (n, r) = (q.numer as real, rho(w));
    assert(n / 1real == n) by (nonlinear_arith);
    assert((k as real) / 1real == k as real) by (nonlinear_arith);
    assert(n * r == (if largest {
        -r
    } else {
        r
    })) by (nonlinear_arith)
        requires
            n == (if largest {
                -1real
            } else {
                1real
            }),
    ;
}

/// An equation with a witness that is not negative implies the comparison that it
/// takes the place of.
pub proof fn law_witness_implies(a: Atom, w: AbstractValue, rho: Valuation)
    requires
        bound_of(a) is Some,
        rho(w) >= 0real,
        rho((bound_of(a)->0).0) == lin_value(
            witness_equation((bound_of(a)->0).1, (bound_of(a)->0).2, w),
            rho,
        ),
    ensures
        atom_holds(a, rho),
{
    lemma_witness_value((bound_of(a)->0).1, (bound_of(a)->0).2, w, rho);
}

/// Where a comparison holds of an integer, there is a value for the witness: an
/// integer that is not negative.
pub proof fn law_witness_exists(a: Atom, w: AbstractValue, rho: Valuation) -> (n: nat)
    requires
        bound_of(a) is Some,
        atom_holds(a, rho),
        is_whole(rho((bound_of(a)->0).0)),
        w != (bound_of(a)->0).0,
    ensures
        rho((bound_of(a)->0).0) == lin_value(
            witness_equation((bound_of(a)->0).1, (bound_of(a)->0).2, w),
            |v: AbstractValue|
                if v == w {
                    n as real
                } else {
                    rho(v)
                },
        ),
{
    let (x, k, largest) = bound_of(a)->0;
    let i = choose|i: int| rho(x) == #[trigger] super::meaning::whole(i);
    let n: int = if largest {
        k - i
    } else {
        i - k
    };
    assert(n >= 0);
    lemma_witness_value(
        k,
        largest,
        w,
        |v: AbstractValue|
            if v == w {
                n as real
            } else {
                rho(v)
            },
    );
    n as nat
}

/// The state speaks of no value that is still to be handed out.
pub open spec fn fresh_below(m: PhiModel, next: int) -> bool {
    forall|v: AbstractValue| v.0 <= next ==> #[trigger] unused(m, v)
}

/// The comparisons bound no value that is still to be handed out.
pub open spec fn bounds_issued(s: Seq<Atom>, next: int) -> bool {
    forall|j: int|
        0 <= j < s.len() ==> (bound_of(#[trigger] s[j]) matches Some((y, _, _)) ==> y.0 > next)
}

/// The first of the comparisons that bounds `x` is the one at `i`.
pub open spec fn first_bound(s: Seq<Atom>, x: AbstractValue, i: int) -> bool {
    &&& 0 <= i < s.len()
    &&& bound_of(s[i]) matches Some((y, _, _)) && y == x
    &&& forall|j: int|
        0 <= j < i ==> !(bound_of(#[trigger] s[j]) matches Some((y, _, _)) && y == x)
}

/// What is exported for `x` stays, and the witnesses only become more.
proof fn lemma_export_keeps(
    e: Exported,
    keep: Seq<AbstractValue>,
    targets: Seq<AbstractValue>,
    s: Seq<Atom>,
    x: AbstractValue,
)
    requires
        sorted::<AbstractValue, Lin>(e.phi.lin),
    ensures
        ({
            let r = export_all(e, keep, targets, s);
            &&& sorted::<AbstractValue, Lin>(r.phi.lin)
            &&& r.phi.eqs == e.phi.eqs
            &&& r.next <= e.next
            &&& lookup(e.phi.lin, x) is Some ==> lookup(r.phi.lin, x) == lookup(e.phi.lin, x)
            &&& forall|w: AbstractValue| e.made.contains(w) ==> r.made.contains(w)
        }),
    decreases s.len(),
{
    if s.len() > 0 {
        let e1 = export_one(e, keep, targets, s[0]);
        if e1.made.len() != e.made.len() {
            let (y, k, largest) = bound_of(s[0])->0;
            let w = AbstractValue(e.next as i64);
            let l = witness_equation(k, largest, w);
            lemma_put_sorted::<AbstractValue, Lin>(e.phi.lin, y, l);
            lemma_lookup_put::<AbstractValue, Lin>(e.phi.lin, y, l, x);
            assert forall|v: AbstractValue| e.made.contains(v) implies e1.made.contains(v) by {
                let i = choose|i: int| 0 <= i < e.made.len() && e.made[i] == v;
                assert(e1.made[i] == v);
            }
        }
        lemma_export_keeps(e1, keep, targets, s.drop_first(), x);
    }
}

proof fn lemma_export_makes(
    e: Exported,
    keep: Seq<AbstractValue>,
    targets: Seq<AbstractValue>,
    s: Seq<Atom>,
    x: AbstractValue,
    i: int,
) -> (w: AbstractValue)
    requires
        sorted::<AbstractValue, Lin>(e.phi.lin),
        e.next < 0,
        e.next - s.len() >= i64::MIN,
        fresh_below(e.phi, e.next),
        bounds_issued(s, e.next),
        first_bound(s, x, i),
        wants_witness(e.phi, keep, targets, x),
    ensures
        ({
            let r = export_all(e, keep, targets, s);
            &&& lookup(r.phi.lin, x) == Some(
                witness_equation((bound_of(s[i])->0).1, (bound_of(s[i])->0).2, w),
            )
            &&& r.made.contains(w)
            &&& r.next < w.0 <= e.next
        }),
    decreases s.len(),
{
    let e1 = export_one(e, keep, targets, s[0]);
    let rest = s.drop_first();
    let w = AbstractValue(e.next as i64);
    assert(unused(e.phi, w));
    if i == 0 {
        let (y, k, largest) = bound_of(s[0])->0;
        let l = witness_equation(k, largest, w);
        assert(x.0 > e.next);
        lemma_put_sorted::<AbstractValue, Lin>(e.phi.lin, x, l);
        lemma_lookup_put::<AbstractValue, Lin>(e.phi.lin, x, l, x);
        assert(e1.made[e.made.len() as int] == w);
        assert(e1.made.contains(w));
        lemma_export_keeps(e1, keep, targets, rest, x);
        w
    } else {
        assert(bound_of(s[i]) is Some);
        assert(rest[i - 1] == s[i]);
        assert forall|j: int| 0 <= j < rest.len() implies (bound_of(#[trigger] rest[j]) matches Some(
            (y, _, _),
        ) ==> y.0 > e1.next) by {
            assert(rest[j] == s[j + 1]);
        }
        assert forall|j: int| 0 <= j < i - 1 implies !(bound_of(#[trigger] rest[j]) matches Some(
            (y, _, _),
        ) && y == x) by {
            assert(rest[j] == s[j + 1]);
        }
        assert(x.0 > e.next);
        if e1.made.len() != e.made.len() {
            let (y, k, largest) = bound_of(s[0])->0;
            let l = witness_equation(k, largest, w);
            assert(y.0 > e.next && y != x);
            lemma_put_sorted::<AbstractValue, Lin>(e.phi.lin, y, l);
            lemma_lookup_put::<AbstractValue, Lin>(e.phi.lin, y, l, x);
            assert forall|v: AbstractValue| v.0 <= e1.next implies #[trigger] unused(e1.phi, v) by {
                assert(unused(e.phi, v));
                lemma_lookup_put::<AbstractValue, Lin>(e.phi.lin, y, l, v);
            }
            if used_in_range(e1.phi.lin, x) {
                let j = choose|j: int|
                    0 <= j < e1.phi.lin.len() && lookup((#[trigger] e1.phi.lin[j]).1.vars, x) is Some;
                lemma_put_members::<AbstractValue, Lin>(e.phi.lin, y, l, j);
                assert(l.vars.drop_first() =~= Coeffs::empty());
                assert(lookup(l.vars.drop_first(), x) is None);
                assert(lookup(l.vars, x) is None);
                assert(used_in_range(e.phi.lin, x));
            }
        }
        lemma_export_makes(e1, keep, targets, rest, x, i - 1)
    }
}

proof fn lemma_with_values(set: Seq<AbstractValue>, vs: Seq<AbstractValue>, q: AbstractValue)
    requires
        set.contains(q) || vs.contains(q),
    ensures
        with_values(set, vs).contains(q),
    decreases vs.len(),
{
    if vs.len() > 0 {
        lemma_set_put_contains::<AbstractValue>(set, vs[0], q);
        if !set_put::<AbstractValue>(set, vs[0]).contains(q) {
            let i = choose|i: int| 0 <= i < vs.len() && vs[i] == q;
            assert(vs.drop_first()[i - 1] == q);
        }
        lemma_with_values(set_put::<AbstractValue>(set, vs[0]), vs.drop_first(), q);
    }
}

/// A kept target that no equation speaks of leaves the first comparison that bounds
/// it by a constant as an equation with a fresh restricted value.
pub proof fn law_witness_exported(
    f: FormulaModel,
    vocabulary: Seq<AbstractValue>,
    keep: Seq<AbstractValue>,
    targets: Seq<AbstractValue>,
    next: int,
    x: AbstractValue,
    i: int,
) -> (w: AbstractValue)
    requires
        sorted::<AbstractValue, Lin>(f.phi.lin),
        rewritten_conditions(f, keep) is Some,
        next < 0,
        fresh_below(f.phi, next),
        wants_witness(f.phi, keep, targets, x),
        ({
            let s = f.phi.atoms + (rewritten_conditions(f, keep)->0).map_values(
                |c: (Atom, usize)| c.0,
            );
            &&& next - s.len() >= i64::MIN
            &&& bounds_issued(s, next)
            &&& first_bound(s, x, i)
        }),
    ensures
        ({
            let c = rewritten_conditions(f, keep)->0;
            let s = f.phi.atoms + c.map_values(|c: (Atom, usize)| c.0);
            let (_, k, largest) = bound_of(s[i])->0;
            let after = simplified_for_summary(f, vocabulary, keep, targets, next);
            &&& after is Some
            &&& lookup((after->0).phi.lin, x) == Some(witness_equation(k, largest, w))
            &&& exported(f, c, keep, targets, next).next < w.0 <= next
        }),
{
    let c = rewritten_conditions(f, keep)->0;
    let s = f.phi.atoms + c.map_values(|c: (Atom, usize)| c.0);
    let start = Exported { phi: f.phi, made: Seq::empty(), next };
    let w = lemma_export_makes(start, keep, targets, s, x, i);
    let e = exported(f, c, keep, targets, next);
    lemma_export_keeps(start, keep, targets, s, x);
    let set = with_values(keep, e.made);
    lemma_with_values(keep, e.made, x);
    lemma_with_values(keep, e.made, w);
    assert(unused(f.phi, w));
    let p = |b: (AbstractValue, Lin)|
        passes(e.phi, set, true, b.0) && all_pass(e.phi, set, true, lin_vars(b.1));
    lemma_lookup_filter::<AbstractValue, Lin>(e.phi.lin, p, x);
    w
}

} // verus!
