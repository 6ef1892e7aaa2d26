//! Values connected through the facts of a formula.

use super::Formula;
use super::lin_arith::{Lin, LinArith};
use super::phi::{AppKey, FnAppActual, FnAppKey, Phi};
use super::resolve::ValueSet;
use super::solver::PhiModel;
use super::var_uf::repr;
use crate::abstract_value::AbstractValue;
use crate::ordered::{lemma_set_put_contains, lookup, set_put, set_sorted, Dup};
use vstd::prelude::*;

verus! {

/// Some variable of `l` is in the class of `r`.
pub open spec fn mentions(m: PhiModel, l: Lin, r: AbstractValue) -> bool {
    exists|j: int| 0 <= j < l.vars.len() && repr(m.eqs, (#[trigger] l.vars[j]).0) == r
}

/// The class of `r` takes part in a pure call, as its result or an actual.
pub open spec fn in_call(m: PhiModel, e: (AppKey, AbstractValue), r: AbstractValue) -> bool {
    repr(m.eqs, e.1) == r || exists|j: int|
        0 <= j < e.0.actuals.len() && (#[trigger] e.0.actuals[j] matches FnAppActual::Var(v)
            && repr(m.eqs, v) == r)
}

/// `b` is in the equation of the class of `a`.
pub open spec fn links_right(m: PhiModel, a: AbstractValue, b: AbstractValue) -> bool {
    lookup(m.lin, repr(m.eqs, a)) matches Some(l) && mentions(m, l, b)
}

/// `b` has an equation that mentions the class of `a`.
pub open spec fn links_left(m: PhiModel, a: AbstractValue, b: AbstractValue) -> bool {
    exists|i: int|
        0 <= i < m.lin.len() && repr(m.eqs, (#[trigger] m.lin[i]).0) == b && b != repr(m.eqs, a)
            && mentions(m, m.lin[i].1, repr(m.eqs, a))
}

/// `b` and the class of `a` take part in the same pure call.
pub open spec fn links_call(m: PhiModel, a: AbstractValue, b: AbstractValue) -> bool {
    exists|i: int|
        0 <= i < m.apps.len() && in_call(m, #[trigger] m.apps[i], repr(m.eqs, a)) && in_call(
            m,
            m.apps[i],
            b,
        )
}

/// A fact of the state connects `a` to the representative `b`.
pub open spec fn links(m: PhiModel, a: AbstractValue, b: AbstractValue) -> bool {
    links_right(m, a, b) || links_left(m, a, b) || links_call(m, a, b)
}

/// A chain of connections from a member of `seed` to its last value.
pub open spec fn is_chain(m: PhiModel, seed: Seq<AbstractValue>, p: Seq<AbstractValue>) -> bool {
    &&& p.len() > 0
    &&& seed.contains(p[0])
    &&& forall|i: int, j: int|
        0 <= i && j == i + 1 && j < p.len() ==> links(m, #[trigger] p[i], #[trigger] p[j])
}

/// `x` is connected to a member of `seed`.
pub open spec fn reaches(m: PhiModel, seed: Seq<AbstractValue>, x: AbstractValue) -> bool {
    exists|p: Seq<AbstractValue>| #[trigger] is_chain(m, seed, p) && p.last() == x
}

/// What visiting `v` does to the set and the worklist: it adds values that `v`
/// is connected to, each to both.
spec fn grown(
    m: PhiModel,
    v: AbstractValue,
    s: Seq<AbstractValue>,
    w: Seq<AbstractValue>,
    s2: Seq<AbstractValue>,
    w2: Seq<AbstractValue>,
) -> bool {
    &&& forall|x: AbstractValue| s.contains(x) ==> s2.contains(x)
    &&& forall|x: AbstractValue| #[trigger]
        s2.contains(x) ==> s.contains(x) || (links(m, v, x) && w2.contains(x))
    &&& forall|x: AbstractValue| w.contains(x) ==> w2.contains(x)
    &&& forall|x: AbstractValue| #[trigger] w2.contains(x) ==> w.contains(x) || s2.contains(x)
    &&& s2.len() - s.len() == w2.len() - w.len()
    &&& s2.len() >= s.len()
}

pub proof fn lemma_set_put_len(s: Seq<AbstractValue>, k: AbstractValue)
    requires
        !s.contains(k),
    ensures
        set_put::<AbstractValue>(s, k).len() == s.len() + 1,
    decreases s.len(),
{
    if s.len() > 0 {
        assert(s[0] != k);
        if !(k.0 < s[0].0) {
            let r = s.drop_first();
            if r.contains(k) {
                let i = choose|i: int| 0 <= i < r.len() && r[i] == k;
                assert(s[i + 1] == k);
            }
            lemma_set_put_len(r, k);
        }
    }
}

/// Adds a value to the set, and to the worklist when it is new.
fn add_value(reachable: &mut ValueSet, worklist: &mut Vec<AbstractValue>, x: AbstractValue, m: Ghost<
    PhiModel,
>, v: AbstractValue)
    requires
        links(m@, v, x),
    ensures
        grown(m@, v, old(reachable)@, old(worklist)@, final(reachable)@, final(worklist)@),
        final(reachable)@.contains(x),
{
    let ghost s = reachable@;
    let ghost w = worklist@;
    if !reachable.contains(&x) {
        reachable.insert(x);
        worklist.push(x);
        proof {
            lemma_set_put_len(s, x);
            assert(worklist@[w.len() as int] == x);
            assert forall|y: AbstractValue| w.contains(y) implies worklist@.contains(y) by {
                let i = choose|i: int| 0 <= i < w.len() && w[i] == y;
                assert(worklist@[i] == y);
            }
            assert forall|y: AbstractValue| #[trigger] worklist@.contains(y) implies w.contains(y)
                || y == x by {
                let i = choose|i: int| 0 <= i < worklist@.len() && worklist@[i] == y;
                if i < w.len() {
                    assert(w[i] == y);
                }
            }
            assert forall|y: AbstractValue| #[trigger] reachable@.contains(y) <==> s.contains(y)
                || y == x by {
                lemma_set_put_contains::<AbstractValue>(s, x, y);
            }
        }
    }
}

/// Adds the values in the equation of the class of `v`.
fn visit_right(
    phi: &Phi,
    v: AbstractValue,
    reachable: &mut ValueSet,
    worklist: &mut Vec<AbstractValue>,
)
    ensures
        grown(phi@, v, old(reachable)@, old(worklist)@, final(reachable)@, final(worklist)@),
        forall|x: AbstractValue| links_right(phi@, v, x) ==> final(reachable)@.contains(x),
{
    let ghost (s, w) = (reachable@, worklist@);
    let repr_v = phi.get_repr(v);
    match phi.linear_eqs.get(&repr_v) {
        None => {},
        Some(lin) => {
            let ghost l = lin@;
            let mut j: usize = 0;
            while j < lin.vars.len()
                invariant
                    j <= l.vars.len(),
                    l == lin@,
                    lookup(phi@.lin, repr(phi@.eqs, v)) == Some(l),
                    grown(phi@, v, s, w, reachable@, worklist@),
                    forall|i: int|
                        0 <= i < j ==> reachable@.contains(
                            repr(phi@.eqs, (#[trigger] l.vars[i]).0),
                        ),
                decreases l.vars.len() - j,
            {
                let dep = phi.get_repr(*lin.vars.key_at(j));
                assert(repr(phi@.eqs, l.vars[j as int].0) == dep);
                assert(links_right(phi@, v, dep));
                add_value(reachable, worklist, dep, Ghost(phi@), v);
                j = j + 1;
            }
        },
    }
}

/// Adds the values whose equation mentions the class of `v`.
fn visit_left(
    phi: &Phi,
    v: AbstractValue,
    reachable: &mut ValueSet,
    worklist: &mut Vec<AbstractValue>,
)
    ensures
        grown(phi@, v, old(reachable)@, old(worklist)@, final(reachable)@, final(worklist)@),
        forall|x: AbstractValue| links_left(phi@, v, x) ==> final(reachable)@.contains(x),
{
    let ghost (s, w) = (reachable@, worklist@);
    let repr_v = phi.get_repr(v);
    let mut i: usize = 0;
    while i < phi.linear_eqs.len()
        invariant
            i <= phi@.lin.len(),
            repr_v == repr(phi@.eqs, v),
            grown(phi@, v, s, w, reachable@, worklist@),
            forall|k: int|
                0 <= k < i && repr(phi@.eqs, (#[trigger] phi@.lin[k]).0) != repr_v && mentions(
                    phi@,
                    phi@.lin[k].1,
                    repr_v,
                ) ==> reachable@.contains(repr(phi@.eqs, phi@.lin[k].0)),
        decreases phi@.lin.len() - i,
    {
        let lhs = phi.get_repr(*phi.linear_eqs.key_at(i));
        assert(repr(phi@.eqs, phi@.lin[i as int].0) == lhs);
        if lhs != repr_v && equation_mentions(phi, phi.linear_eqs.value_at(i), repr_v) {
            assert(links_left(phi@, v, lhs));
            add_value(reachable, worklist, lhs, Ghost(phi@), v);
        }
        i = i + 1;
    }
}

fn equation_mentions(phi: &Phi, lin: &LinArith, r: AbstractValue) -> (b: bool)
    ensures
        b == mentions(phi@, lin@, r),
{
    let ghost l = lin@;
    let mut j: usize = 0;
    while j < lin.vars.len()
        invariant
            j <= l.vars.len(),
            l == lin@,
            forall|i: int| 0 <= i < j ==> repr(phi@.eqs, (#[trigger] l.vars[i]).0) != r,
        decreases l.vars.len() - j,
    {
        if phi.get_repr(*lin.vars.key_at(j)) == r {
            assert(repr(phi@.eqs, l.vars[j as int].0) == r);
            return true;
        }
        j = j + 1;
    }
    false
}

/// Whether the class of `r` takes part in the call.
fn call_involves(phi: &Phi, key: &FnAppKey, ret: AbstractValue, r: AbstractValue) -> (b: bool)
    ensures
        b == in_call(phi@, (key@, ret), r),
{
    if phi.get_repr(ret) == r {
        return true;
    }
    let ghost e = (key@, ret);
    let mut j: usize = 0;
    while j < key.actuals.len()
        invariant
            j <= key.actuals@.len(),
            e == (key@, ret),
            forall|i: int|
                0 <= i < j ==> !(#[trigger] e.0.actuals[i] matches FnAppActual::Var(v) && repr(
                    phi@.eqs,
                    v,
                ) == r),
        decreases key.actuals@.len() - j,
    {
        if let FnAppActual::Var(a) = key.actuals[j] {
            if phi.get_repr(a) == r {
                assert(e.0.actuals[j as int] == FnAppActual::Var(a));
                return true;
            }
        }
        assert(e.0.actuals[j as int] == key.actuals@[j as int]);
        j = j + 1;
    }
    false
}

/// Adds the values that take part in a call with the class of `v`.
fn visit_calls(
    phi: &Phi,
    v: AbstractValue,
    reachable: &mut ValueSet,
    worklist: &mut Vec<AbstractValue>,
)
    ensures
        grown(phi@, v, old(reachable)@, old(worklist)@, final(reachable)@, final(worklist)@),
        forall|x: AbstractValue| links_call(phi@, v, x) ==> final(reachable)@.contains(x),
{
    let ghost (s, w) = (reachable@, worklist@);
    let repr_v = phi.get_repr(v);
    let mut i: usize = 0;
    while i < phi.fn_app_eqs.len()
        invariant
            i <= phi@.apps.len(),
            repr_v == repr(phi@.eqs, v),
            grown(phi@, v, s, w, reachable@, worklist@),
            forall|k: int, x: AbstractValue|
                0 <= k < i && in_call(phi@, #[trigger] phi@.apps[k], repr_v) && #[trigger] in_call(
                    phi@,
                    phi@.apps[k],
                    x,
                ) ==> reachable@.contains(x),
        decreases phi@.apps.len() - i,
    {
        let key = phi.fn_app_eqs.key_at(i);
        let ret = *phi.fn_app_eqs.value_at(i);
        let ghost e = phi@.apps[i as int];
        assert(e == (key@, ret));
        if call_involves(phi, key, ret, repr_v) {
            let ret_repr = phi.get_repr(ret);
            assert(in_call(phi@, e, ret_repr));
            assert(links_call(phi@, v, ret_repr));
            add_value(reachable, worklist, ret_repr, Ghost(phi@), v);
            let ghost before = reachable@;
            let mut j: usize = 0;
            while j < key.actuals.len()
                invariant
                    j <= key.actuals@.len(),
                    i < phi@.apps.len(),
                    e == phi@.apps[i as int],
                    e == (key@, ret),
                    repr_v == repr(phi@.eqs, v),
                    in_call(phi@, e, repr_v),
                    grown(phi@, v, s, w, reachable@, worklist@),
                    forall|x: AbstractValue| before.contains(x) ==> reachable@.contains(x),
                    forall|k: int|
                        0 <= k < j ==> (#[trigger] e.0.actuals[k] matches FnAppActual::Var(a)
                            ==> reachable@.contains(repr(phi@.eqs, a))),
                decreases key.actuals@.len() - j,
            {
                if let FnAppActual::Var(a) = key.actuals[j] {
                    let ar = phi.get_repr(a);
                    assert(e.0.actuals[j as int] == FnAppActual::Var(a));
                    assert(in_call(phi@, e, ar));
                    assert(links_call(phi@, v, ar));
                    add_value(reachable, worklist, ar, Ghost(phi@), v);
                }
                assert(e.0.actuals[j as int] == key.actuals@[j as int]);
                j = j + 1;
            }
            assert(before.contains(ret_repr));
        }
        i = i + 1;
    }
}

pub proof fn lemma_set_len(s: Seq<AbstractValue>)
    requires
        set_sorted::<AbstractValue>(s),
    ensures
        s.len() <= 0x1_0000_0000_0000_0000,
        s.len() > 0 ==> s.last().0 >= i64::MIN + s.len() - 1,
    decreases s.len(),
{
    if s.len() > 0 {
        let r = s.drop_last();
        assert forall|a: int, b: int| 0 <= a < b < r.len() implies (#[trigger] r[a]).0 < (
        #[trigger] r[b]).0 by {
            assert(s[a].0 < s[b].0);
        }
        lemma_set_len(r);
        if r.len() > 0 {
            assert(s[s.len() - 2].0 < s[s.len() - 1].0);
        }
    }
}

pub proof fn lemma_chain_extend(
    m: PhiModel,
    seed: Seq<AbstractValue>,
    v: AbstractValue,
    x: AbstractValue,
)
    requires
        reaches(m, seed, v),
        links(m, v, x),
    ensures
        reaches(m, seed, x),
{
    let p = choose|p: Seq<AbstractValue>| #[trigger] is_chain(m, seed, p) && p.last() == v;
    let q = p.push(x);
    assert(is_chain(m, seed, q)) by {
        assert forall|i: int, j: int| 0 <= i && j == i + 1 && j < q.len() implies links(
            m,
            #[trigger] q[i],
            #[trigger] q[j],
        ) by {
            if j < p.len() {
                assert(links(m, p[i], p[j]));
            } else {
                assert(q[i] == p.last());
            }
        }
        assert(q[0] == p[0]);
    }
    assert(q.last() == x);
}

/// A set that holds the seed and is closed under connections holds every
/// connected value.
pub proof fn lemma_closed_contains(
    m: PhiModel,
    seed: Seq<AbstractValue>,
    s: Seq<AbstractValue>,
    p: Seq<AbstractValue>,
)
    requires
        forall|x: AbstractValue| seed.contains(x) ==> s.contains(x),
        forall|a: AbstractValue, b: AbstractValue|
            s.contains(a) && #[trigger] links(m, a, b) ==> s.contains(b),
        is_chain(m, seed, p),
    ensures
        s.contains(p.last()),
    decreases p.len(),
{
    if p.len() > 1 {
        let q = p.drop_last();
        assert(is_chain(m, seed, q)) by {
            assert forall|i: int, j: int| 0 <= i && j == i + 1 && j < q.len() implies links(
                m,
                #[trigger] q[i],
                #[trigger] q[j],
            ) by {
                assert(links(m, p[i], p[j]));
            }
        }
        lemma_closed_contains(m, seed, s, q);
        assert(links(m, p[p.len() - 2], p[p.len() - 1]));
        assert(q.last() == p[p.len() - 2]);
    } else {
        assert(p.last() == p[0]);
    }
}

/// Transitively expand a seed set across the formula's linear equations (in
/// both directions) and pure calls: the result holds exactly the values
/// connected to a seed.
pub fn expand_formula_reachable(formula: &Formula, seed_reachable: &ValueSet) -> (r: ValueSet)
    ensures
        forall|x: AbstractValue|
            #[trigger] r@.contains(x) <==> reaches(formula@.phi, seed_reachable@, x),
{
    let phi = formula.phi();
    let ghost m = formula@.phi;
    let ghost seed = seed_reachable@;
    let mut reachable = seed_reachable.dup();
    let mut worklist: Vec<AbstractValue> = Vec::new();
    let mut i: usize = 0;
    while i < seed_reachable.len()
        invariant
            i <= seed.len(),
            seed == seed_reachable@,
            worklist@ =~= seed.take(i as int),
        decreases seed.len() - i,
    {
        worklist.push(*seed_reachable.at(i));
        i = i + 1;
    }
    proof {
        assert(seed.take(seed.len() as int) =~= seed);
        assert forall|x: AbstractValue| seed.contains(x) implies reaches(m, seed, x) by {
            assert(is_chain(m, seed, seq![x]));
            assert(seq![x].last() == x);
        }
    }
    while worklist.len() > 0
        invariant
            m == phi@,
            forall|x: AbstractValue| seed.contains(x) ==> reachable@.contains(x),
            forall|x: AbstractValue| #[trigger] reachable@.contains(x) ==> reaches(m, seed, x),
            forall|x: AbstractValue| #[trigger] worklist@.contains(x) ==> reachable@.contains(x),
            forall|a: AbstractValue, b: AbstractValue|
                reachable@.contains(a) && !worklist@.contains(a) && #[trigger] links(m, a, b)
                    ==> reachable@.contains(b),
        decreases 0x1_0000_0000_0000_0000 - reachable@.len(), worklist@.len(),
    {
        let ghost w0 = worklist@;
        let n: usize = reachable.len();
        let v = worklist.pop().unwrap();
        let ghost (s1, w1) = (reachable@, worklist@);
        assert(w0[w0.len() - 1] == v);
        assert(w0.contains(v));
        assert forall|x: AbstractValue| w1.contains(x) implies w0.contains(x) by {
            let i = choose|i: int| 0 <= i < w1.len() && w1[i] == x;
            assert(w0[i] == x);
        }
        assert forall|x: AbstractValue| #[trigger] w0.contains(x) implies w1.contains(x) || x
            == v by {
            let i = choose|i: int| 0 <= i < w0.len() && w0[i] == x;
            if i < w1.len() {
                assert(w1[i] == x);
            }
        }
        visit_right(phi, v, &mut reachable, &mut worklist);
        let ghost (s2, w2) = (reachable@, worklist@);
        visit_left(phi, v, &mut reachable, &mut worklist);
        let ghost (s3, w3) = (reachable@, worklist@);
        visit_calls(phi, v, &mut reachable, &mut worklist);
        let ghost (s4, w4) = (reachable@, worklist@);
        let n4: usize = reachable.len();
        proof {
            lemma_set_len(s4);
            assert forall|x: AbstractValue| #[trigger] s4.contains(x) implies reaches(
                m,
                seed,
                x,
            ) by {
                if !s1.contains(x) {
                    assert(links(m, v, x));
                    lemma_chain_extend(m, seed, v, x);
                }
            }
            assert forall|x: AbstractValue| #[trigger] w4.contains(x) implies s4.contains(x) by {}
            assert forall|a: AbstractValue, b: AbstractValue|
                s4.contains(a) && !w4.contains(a) && #[trigger] links(m, a, b) implies s4.contains(
                b,
            ) by {
                if a == v {
                } else {
                    assert(s1.contains(a)) by {
                        if !s3.contains(a) {
                            assert(w4.contains(a));
                        }
                        if !s2.contains(a) {
                            assert(w3.contains(a));
                        }
                        if !s1.contains(a) {
                            assert(w2.contains(a));
                        }
                    }
                    assert(!w0.contains(a));
                }
            }
        }
    }
    proof {
        assert forall|x: AbstractValue| reaches(m, seed, x) implies #[trigger] reachable@.contains(
            x,
        ) by {
            let p = choose|p: Seq<AbstractValue>| #[trigger] is_chain(m, seed, p) && p.last() == x;
            lemma_closed_contains(m, seed, reachable@, p);
        }
    }
    reachable
}

} // verus!
