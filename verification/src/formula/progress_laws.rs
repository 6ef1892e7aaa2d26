//! Solving goes forward: classes are merged and never split, and each merge leaves
//! fewer of them to merge.

use super::atom::Atom;
use super::citv::{Bound, CItv};
use super::first_facts::lemma_normalize_var;
use super::lin_arith::{lin_as_const, lin_as_var, lin_const, lin_var, Lin};
use super::meaning::lemma_substituted_at;
use super::phi::NewEq;
use super::solver::{
    app_key, displaced, finish_propagate, lin_term, mentioning, normalize, prepend, refined_itv,
    renamed_lin, room, run_add, run_atom, run_const_eq, run_fn_app, run_interval, run_linear_eq,
    run_propagate, run_updates, run_var_equal, solve_for, staying, substitute_atoms, substituted,
    with_zero, without_eq, Outcome, PhiModel,
};
use super::var_uf::{
    eqs_wf, law_representative_is_smallest, law_union_merges_two_classes, lemma_redirected,
    lemma_union_wf, merged, redirected, repr, union_result, Eqs,
};
use crate::abstract_value::AbstractValue;
use crate::ordered::{
    lemma_del_sorted, lemma_lookup_has_key, lemma_position_exists, lemma_put_at, lemma_put_sorted,
    lookup, put, sorted, OrdKey,
};
use crate::rational::q_int;
use crate::sat_unsat::SatUnsat;
use vstd::prelude::*;

verus! {

pub type LinEqs = Seq<(AbstractValue, Lin)>;

/// The classes and the equations are in order.
pub open spec fn in_order(m: PhiModel) -> bool {
    eqs_wf(m.eqs) && sorted::<AbstractValue, Lin>(m.lin)
}

/// Values in one class of `a` are in one class of `b`.
pub open spec fn coarser(a: Eqs, b: Eqs) -> bool {
    forall|v: AbstractValue, w: AbstractValue|
        #![trigger repr(b, v), repr(b, w)]
        repr(a, v) == repr(a, w) ==> repr(b, v) == repr(b, w)
}

/// `n` comes after `m`: it is in order, its classes are no smaller, and no more can
/// be merged.
pub open spec fn later(m: PhiModel, n: PhiModel) -> bool {
    in_order(n) && coarser(m.eqs, n.eqs) && room(n) <= room(m)
}

proof fn lemma_without(m: PhiModel, x: AbstractValue)
    requires
        in_order(m),
    ensures
        later(m, without_eq(m, x)),
{
    lemma_del_sorted::<AbstractValue, Lin>(m.lin, x);
}

/// There are not more values than 64-bit integers.
proof fn lemma_room(m: PhiModel)
    requires
        eqs_wf(m.eqs),
    ensures
        room(m) >= 0,
{
    if m.eqs.len() > 0 {
        lemma_keys_apart(m.eqs, m.eqs.len() - 1);
    }
}

proof fn lemma_keys_apart(eqs: Eqs, i: int)
    requires
        sorted::<AbstractValue, AbstractValue>(eqs),
        0 <= i < eqs.len(),
    ensures
        eqs[i].0.0 >= i64::MIN + i,
    decreases i,
{
    if i > 0 {
        lemma_keys_apart(eqs, i - 1);
        assert(<AbstractValue as OrdKey>::lt(eqs[i - 1].0, eqs[i].0));
    }
}

/// Merging two classes leaves fewer to merge.
proof fn lemma_union_goes_forward(m: PhiModel, v1: AbstractValue, v2: AbstractValue)
    requires
        in_order(m),
        union_result(m.eqs, v1, v2).1 is Some,
    ensures
        ({
            let n = PhiModel { eqs: union_result(m.eqs, v1, v2).0, ..m };
            later(m, n) && room(n) < room(m) && room(n) >= 0
        }),
{
    let (e, pair) = union_result(m.eqs, v1, v2);
    let n = PhiModel { eqs: e, ..m };
    let (gone, keep) = pair->0;
    lemma_union_wf(m.eqs, v1, v2);
    law_representative_is_smallest(m.eqs, v1);
    law_representative_is_smallest(m.eqs, v2);
    assert(e == merged(m.eqs, gone, keep));
    assert(lookup(m.eqs, gone) is None) by {
        let v = if gone == repr(m.eqs, v1) {
            v1
        } else {
            v2
        };
        lemma_lookup_has_key(m.eqs, v);
    }
    let red = redirected(m.eqs, gone, keep);
    lemma_redirected(m.eqs, gone, keep, gone);
    let i = lemma_position_exists::<AbstractValue, AbstractValue>(red, gone);
    lemma_put_at::<AbstractValue, AbstractValue>(red, gone, keep, i);
    lemma_lookup_has_key(red, gone);
    assert(e.len() == m.eqs.len() + 1);
    assert forall|v: AbstractValue, w: AbstractValue|
        #![trigger repr(e, v), repr(e, w)]
        repr(m.eqs, v) == repr(m.eqs, w) implies repr(e, v) == repr(e, w) by {
        law_union_merges_two_classes(m.eqs, v1, v2, v);
        law_union_merges_two_classes(m.eqs, v1, v2, w);
    }
    lemma_room(n);
}

proof fn lemma_later(a: PhiModel, b: PhiModel, c: PhiModel)
    requires
        later(a, b),
        later(b, c),
    ensures
        later(a, c),
{
    assert forall|v: AbstractValue, w: AbstractValue|
        #![trigger repr(c.eqs, v), repr(c.eqs, w)]
        repr(a.eqs, v) == repr(a.eqs, w) implies repr(c.eqs, v) == repr(c.eqs, w) by {
        assert(repr(b.eqs, v) == repr(b.eqs, w));
    }
}

/// Substitution keeps the equations in order.
proof fn lemma_substituted_in_order(s: LinEqs, x: AbstractValue, r: Lin)
    requires
        sorted::<AbstractValue, Lin>(s),
    ensures
        substituted(s, x, r, Seq::empty()) matches Some(t) ==> sorted::<AbstractValue, Lin>(t),
{
    if let Some(t) = substituted(s, x, r, Seq::empty()) {
        let none: LinEqs = Seq::empty();
        lemma_substituted_at(s, x, r, none);
        assert forall|i: int, j: int| 0 <= i < j < t.len() implies <AbstractValue as OrdKey>::lt(
            (#[trigger] t[i]).0,
            (#[trigger] t[j]).0,
        ) by {
            assert(t[none.len() + i].0 == s[i].0);
            assert(t[none.len() + j].0 == s[j].0);
            assert(<AbstractValue as OrdKey>::lt(s[i].0, s[j].0));
        }
    }
}

/// Recording a solved equation goes forward; a merge that it leads to is not refused.
pub proof fn law_add_goes_forward(m: PhiModel, x: AbstractValue, sol: Lin)
    requires
        in_order(m),
    ensures
        run_add(m, x, sol) matches Some((n, _)) ==> later(m, n),
        lin_as_var(sol) matches Some(y) ==> (union_result(m.eqs, x, y).1 is Some ==> 0 <= room(
            PhiModel { eqs: union_result(m.eqs, x, y).0, ..m },
        ) < room(m)),
    decreases room(m), 1int, 0int,
{
    lemma_room(m);
    let eqs = with_zero(Seq::empty(), x, lin_as_const(sol));
    if let Some(y) = lin_as_var(sol) {
        if let (e, Some((gone, keep))) = union_result(m.eqs, x, y) {
            let m1 = PhiModel { eqs: e, ..m };
            let first = seq![NewEq::Equal(gone, keep)];
            lemma_union_goes_forward(m, x, y);
            law_propagate_goes_forward(m1, gone, keep, first);
            if let Some((n, _)) = run_propagate(m1, gone, keep, first) {
                lemma_later(m, m1, n);
            }
        }
    } else if let Some(lin) = substituted(m.lin, x, sol, Seq::empty()) {
        lemma_substituted_in_order(m.lin, x, sol);
        lemma_put_sorted::<AbstractValue, Lin>(lin, x, sol);
        let m1 = PhiModel { lin: put::<AbstractValue, Lin>(lin, x, sol), ..m };
        let keys = mentioning(m.lin, x, Seq::empty());
        law_updates_go_forward(room(m), m1, keys, eqs);
        if let Some((m2, _)) = run_updates(room(m), m1, keys, eqs) {
            lemma_later(m, m1, m2);
        }
    }
}

/// Taking up changed equations goes forward; no merge is refused.
pub proof fn law_updates_go_forward(
    r: int,
    m: PhiModel,
    keys: Seq<AbstractValue>,
    eqs: Seq<NewEq>,
)
    requires
        in_order(m),
        room(m) <= r,
    ensures
        run_updates(r, m, keys, eqs) matches Some((n, _)) ==> later(m, n),
        keys.len() > 0 && lookup(m.lin, keys[0]) is Some ==> (lin_as_var(
            lookup(m.lin, keys[0])->0,
        ) matches Some(y) ==> (union_result(m.eqs, keys[0], y).1 is Some ==> 0 <= room(
            PhiModel { eqs: union_result(m.eqs, keys[0], y).0, ..m },
        ) < r)),
    decreases r, 0int, keys.len(),
{
    if keys.len() > 0 {
        let v = keys[0];
        let rest = keys.drop_first();
        lemma_room(m);
        match lookup(m.lin, v) {
            None => law_updates_go_forward(r, m, rest, eqs),
            Some(l) => {
                let eqs1 = with_zero(eqs, v, lin_as_const(l));
                match lin_as_var(l) {
                    Some(y) => {
                        let m1 = without_eq(m, v);
                        lemma_without(m, v);
                        match union_result(m1.eqs, v, y) {
                            (_, None) => {
                                law_updates_go_forward(r, m1, rest, eqs1);
                                if let Some((n, _)) = run_updates(r, m1, rest, eqs1) {
                                    lemma_later(m, m1, n);
                                }
                            },
                            (e, Some((gone, keep))) => {
                                let m2 = PhiModel { eqs: e, ..m1 };
                                let first = seq![NewEq::Equal(gone, keep)];
                                lemma_union_goes_forward(m1, v, y);
                                lemma_later(m, m1, m2);
                                law_propagate_goes_forward(m2, gone, keep, first);
                                if let Some((m3, res)) = run_propagate(m2, gone, keep, first) {
                                    lemma_later(m, m2, m3);
                                    if let SatUnsat::Sat(more) = res {
                                        law_updates_go_forward(r, m3, rest, eqs1 + more);
                                        if let Some((n, _)) = run_updates(
                                            r,
                                            m3,
                                            rest,
                                            eqs1 + more,
                                        ) {
                                            lemma_later(m, m3, n);
                                        }
                                    }
                                }
                            },
                        }
                    },
                    None => {
                        if let Some((atoms, true)) = substitute_atoms(
                            m.atoms,
                            v,
                            lin_term(l),
                            Seq::empty(),
                        ) {
                            let m1 = PhiModel { atoms, ..m };
                            law_updates_go_forward(r, m1, rest, eqs1);
                            if let Some((n, _)) = run_updates(r, m1, rest, eqs1) {
                                assert(later(m, m1));
                                lemma_later(m, m1, n);
                            }
                        }
                    },
                }
            },
        }
    }
}

/// Carrying a merge through goes forward.
pub proof fn law_propagate_goes_forward(
    m: PhiModel,
    gone: AbstractValue,
    keep: AbstractValue,
    eqs: Seq<NewEq>,
)
    requires
        in_order(m),
    ensures
        run_propagate(m, gone, keep, eqs) matches Some((n, _)) ==> later(m, n),
    decreases room(m), 3int, 0int,
{
    lemma_room(m);
    let s = staying(m, gone, keep);
    if let Some(k) = displaced(m.lin, gone, keep) {
        lemma_del_sorted::<AbstractValue, Lin>(m.lin, k);
    }
    lemma_substituted_in_order(s, gone, lin_var(keep));
    if let Some(renamed) = renamed_lin(m, gone, keep) {
        let m1 = PhiModel { lin: renamed, ..m };
        assert(later(m, m1));
        let start: Outcome = match displaced(m.lin, gone, keep) {
            None => Some((m1, SatUnsat::Sat(eqs))),
            Some(k) => prepend(eqs, run_linear_eq(m1, keep, lookup(m.lin, k)->0)),
        };
        if let Some(k) = displaced(m.lin, gone, keep) {
            let l = lookup(m.lin, k)->0;
            law_linear_eq_goes_forward(m1, keep, l);
            if let Some((n, _)) = run_linear_eq(m1, keep, l) {
                lemma_later(m, m1, n);
            }
        }
        if let Some((m2, res)) = start {
            assert(later(m, m2));
            if let SatUnsat::Sat(eqs1) = res {
                let keys = mentioning(s, gone, Seq::empty());
                law_updates_go_forward(room(m), m2, keys, eqs1);
                if let Some((m3, res3)) = run_updates(room(m), m2, keys, eqs1) {
                    lemma_later(m, m2, m3);
                    if let SatUnsat::Sat(eqs2) = res3 {
                        if let Some((n, _)) = finish_propagate(m3, gone, keep, eqs2) {
                            assert(n.eqs == m3.eqs && n.lin == m3.lin);
                            assert(later(m3, n));
                            lemma_later(m, m3, n);
                        }
                    }
                }
            }
        }
    }
}

/// Recording a linear equation goes forward.
pub proof fn law_linear_eq_goes_forward(m: PhiModel, v: AbstractValue, l: Lin)
    requires
        in_order(m),
    ensures
        run_linear_eq(m, v, l) matches Some((n, _)) ==> later(m, n),
    decreases room(m), 2int, 0int,
{
    if let Some(n) = normalize(m, l) {
        if lin_as_var(n) is Some {
            law_add_goes_forward(m, v, n);
        } else if let Some(SatUnsat::Sat(Some((x, s)))) = solve_for(m, v, l) {
            law_add_goes_forward(m, x, s);
        }
    }
}

/// A value that was made equal to an expression that stands for a variable is in the
/// class of that variable from then on.
pub proof fn law_linear_eq_merges(m: PhiModel, v: AbstractValue, l: Lin, w: AbstractValue)
    requires
        in_order(m),
        normalize(m, l) matches Some(n) && lin_as_var(n) == Some(w),
    ensures
        run_linear_eq(m, v, l) matches Some((after, _)) ==> repr(
            after.eqs,
            v,
        ) == repr(after.eqs, w),
{
    let n = normalize(m, l)->0;
    lemma_room(m);
    if let (e, Some((gone, keep))) = union_result(m.eqs, v, w) {
        let m1 = PhiModel { eqs: e, ..m };
        let first = seq![NewEq::Equal(gone, keep)];
        lemma_union_goes_forward(m, v, w);
        law_union_merges_two_classes(m.eqs, v, w, v);
        law_union_merges_two_classes(m.eqs, v, w, w);
        law_propagate_goes_forward(m1, gone, keep, first);
        assert(repr(m1.eqs, v) == repr(m1.eqs, w));
    }
}

/// Where `w` is a variable without an equation, recording the equation `v = w` is
/// recording that the two are equal, whatever is known of `v`: they share a class.
pub proof fn law_equation_of_variables_merges(m: PhiModel, v: AbstractValue, w: AbstractValue)
    requires
        in_order(m),
        lookup(m.lin, repr(m.eqs, w)) is None,
    ensures
        run_linear_eq(m, v, lin_var(w)) matches Some((after, _)) ==> repr(
            after.eqs,
            v,
        ) == repr(after.eqs, w),
        run_linear_eq(m, v, lin_var(w)) == run_var_equal(m, v, w),
{
    let r = repr(m.eqs, w);
    lemma_normalize_var(m, w);
    law_representative_is_smallest(m.eqs, w);
    law_linear_eq_merges(m, v, lin_var(w), r);
    assert(lin_as_var(lin_var(r)) == Some(r));
    assert(lin_as_const(lin_var(r)) is None);
    assert(repr(m.eqs, r) == r) by {
        lemma_lookup_has_key(m.eqs, w);
    }
    assert(union_result(m.eqs, v, r) == union_result(m.eqs, v, w));
    if let (e, Some((gone, keep))) = union_result(m.eqs, v, w) {
        let m1 = PhiModel { eqs: e, ..m };
        let first = seq![NewEq::Equal(gone, keep)];
        lemma_union_goes_forward(m, v, w);
        let o = run_propagate(m1, gone, keep, first);
        if let Some((n, SatUnsat::Sat(more))) = o {
            assert(Seq::<NewEq>::empty() + more =~= more);
        }
        assert(prepend(Seq::empty(), o) == o);
    }
    law_equal_values_share_a_class(m, v, w);
}

/// Two values that were made equal are in one class from then on.
pub proof fn law_equal_values_share_a_class(m: PhiModel, v1: AbstractValue, v2: AbstractValue)
    requires
        in_order(m),
    ensures
        run_var_equal(m, v1, v2) matches Some((n, _)) ==> later(m, n) && repr(n.eqs, v1) == repr(
            n.eqs,
            v2,
        ),
{
    if let (e, Some((gone, keep))) = union_result(m.eqs, v1, v2) {
        let m1 = PhiModel { eqs: e, ..m };
        let first = seq![NewEq::Equal(gone, keep)];
        lemma_union_goes_forward(m, v1, v2);
        law_union_merges_two_classes(m.eqs, v1, v2, v1);
        law_union_merges_two_classes(m.eqs, v1, v2, v2);
        law_propagate_goes_forward(m1, gone, keep, first);
        if let Some((n, _)) = run_propagate(m1, gone, keep, first) {
            lemma_later(m, m1, n);
            assert(repr(m1.eqs, v1) == repr(m1.eqs, v2));
        }
    }
}

/// Recording a range keeps values together.
pub proof fn law_interval_goes_forward(m: PhiModel, v: AbstractValue, i: CItv)
    requires
        in_order(m),
    ensures
        run_interval(m, v, i) matches Some((n, _)) ==> later(m, n),
{
    if let Some(Some(better)) = refined_itv(m, v, i) {
        let r = repr(m.eqs, v);
        let m1 = PhiModel { itvs: put::<AbstractValue, CItv>(m.itvs, r, better), ..m };
        assert(later(m, m1));
        if let Some(c) = better.singleton() {
            law_linear_eq_goes_forward(m1, r, lin_const(q_int(c)));
            if let Some((n, _)) = run_linear_eq(m1, r, lin_const(q_int(c))) {
                lemma_later(m, m1, n);
            }
        }
    }
}

/// Recording a constant, a pure call or a comparison keeps values together.
pub proof fn law_facts_go_forward(
    m: PhiModel,
    v: AbstractValue,
    c: i64,
    callee: Seq<char>,
    actuals: Seq<AbstractValue>,
    a: Atom,
)
    requires
        in_order(m),
    ensures
        run_const_eq(m, v, c) matches Some((n, _)) ==> later(m, n),
        run_fn_app(m, v, callee, actuals) matches Some((n, _)) ==> later(m, n),
        run_atom(m, a) matches Some((n, _)) ==> later(m, n),
{
    let i = CItv::Between(Bound::Int(c), Bound::Int(c));
    law_interval_goes_forward(m, repr(m.eqs, v), i);
    if let Some((m1, true)) = run_interval(m, repr(m.eqs, v), i) {
        law_linear_eq_goes_forward(m1, v, lin_const(q_int(c)));
        if let Some((n, _)) = run_linear_eq(m1, v, lin_const(q_int(c))) {
            lemma_later(m, m1, n);
        }
    }
    if let Some(existing) = lookup(m.apps, app_key(m, callee, actuals)) {
        law_equal_values_share_a_class(m, repr(m.eqs, v), existing);
    }
}

/// Two pure calls of one function with the same arguments have one result: the
/// second is put into the class of the first.
pub proof fn law_pure_calls_agree(
    m: PhiModel,
    ret: AbstractValue,
    callee: Seq<char>,
    actuals: Seq<AbstractValue>,
    existing: AbstractValue,
)
    requires
        in_order(m),
        lookup(m.apps, app_key(m, callee, actuals)) == Some(existing),
    ensures
        run_fn_app(m, ret, callee, actuals) matches Some((n, _)) ==> repr(n.eqs, ret) == repr(
            n.eqs,
            existing,
        ),
{
    law_equal_values_share_a_class(m, repr(m.eqs, ret), existing);
    law_representative_is_smallest(m.eqs, ret);
    if let Some((n, _)) = run_fn_app(m, ret, callee, actuals) {
        assert(repr(n.eqs, ret) == repr(n.eqs, repr(m.eqs, ret)));
    }
}

} // verus!
