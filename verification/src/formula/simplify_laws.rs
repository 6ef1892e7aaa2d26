//! Forgetting facts: which of them stay, and that forgetting twice is forgetting once.

use super::atom::Atom;
use super::citv::CItv;
use super::lin_arith::Lin;
use super::phi::{AppKey, TermEq, TermKey};
use super::solver::{
    actuals_pass, all_pass, atom_passes, filtered, lin_vars, operand_passes, passes, PhiModel,
};
use crate::abstract_value::AbstractValue;
use crate::ordered::lemma_filter_members;
use vstd::prelude::*;

verus! {

proof fn lemma_filter_twice<A>(s: Seq<A>, p: spec_fn(A) -> bool)
    ensures
        s.filter(p).filter(p) == s.filter(p),
    decreases s.len(),
{
    reveal(Seq::filter);
    if s.len() > 0 {
        let r = s.drop_last();
        lemma_filter_twice(r, p);
        if p(s.last()) {
            let t = r.filter(p).push(s.last());
            assert(t.drop_last() =~= r.filter(p));
        }
    }
}

proof fn lemma_filter_holds<A>(s: Seq<A>, p: spec_fn(A) -> bool, x: A)
    ensures
        s.filter(p).contains(x) <==> s.contains(x) && p(x),
{
    let f = s.filter(p);
    if f.contains(x) {
        let i = choose|i: int| 0 <= i < f.len() && f[i] == x;
        lemma_filter_members(s, p, i);
    }
    if s.contains(x) && p(x) {
        let i = choose|i: int| 0 <= i < s.len() && s[i] == x;
        s.lemma_filter_contains(p, i);
    }
}

/// Forgetting facts leaves the classes alone. An equation, a comparison, a comparison
/// result, a range or the result of a call or an operation stays, unaltered, exactly when
/// all the values that it mentions pass; an integer fact stays when its value does.
pub proof fn law_filtered_keeps_exactly(
    m: PhiModel,
    set: Seq<AbstractValue>,
    inside: bool,
    equation: (AbstractValue, Lin),
    atom: Atom,
    term: (AbstractValue, TermEq),
    range: (AbstractValue, CItv),
    whole: AbstractValue,
    call: (AppKey, AbstractValue),
    value: (TermKey, AbstractValue),
)
    ensures
        ({
            let n = filtered(m, set, inside, false);
            &&& n.eqs == m.eqs
            &&& n.lin.contains(equation) <==> m.lin.contains(equation) && passes(
                m,
                set,
                inside,
                equation.0,
            ) && all_pass(m, set, inside, lin_vars(equation.1))
            &&& n.atoms.contains(atom) <==> m.atoms.contains(atom) && atom_passes(
                m,
                set,
                inside,
                atom,
            )
            &&& n.terms.contains(term) <==> m.terms.contains(term) && passes(
                m,
                set,
                inside,
                term.0,
            ) && operand_passes(m, set, inside, term.1.lhs) && operand_passes(
                m,
                set,
                inside,
                term.1.rhs,
            )
            &&& n.itvs.contains(range) <==> m.itvs.contains(range) && passes(
                m,
                set,
                inside,
                range.0,
            )
            &&& n.ints.contains(whole) <==> m.ints.contains(whole) && passes(m, set, inside, whole)
            &&& n.apps.contains(call) <==> m.apps.contains(call) && passes(m, set, inside, call.1)
                && actuals_pass(m, set, inside, call.0.actuals)
            &&& n.values.contains(value) <==> m.values.contains(value) && passes(
                m,
                set,
                inside,
                value.1,
            ) && operand_passes(m, set, inside, value.0.lhs) && operand_passes(
                m,
                set,
                inside,
                value.0.rhs,
            )
        }),
{
    lemma_filter_holds(
        m.lin,
        |e: (AbstractValue, Lin)|
            passes(m, set, inside, e.0) && all_pass(m, set, inside, lin_vars(e.1)),
        equation,
    );
    lemma_filter_holds(m.atoms, |a: Atom| atom_passes(m, set, inside, a), atom);
    lemma_filter_holds(
        m.terms,
        |e: (AbstractValue, TermEq)|
            passes(m, set, inside, e.0) && operand_passes(m, set, inside, e.1.lhs)
                && operand_passes(m, set, inside, e.1.rhs),
        term,
    );
    lemma_filter_holds(
        m.itvs,
        |e: (AbstractValue, CItv)| passes(m, set, inside, e.0),
        range,
    );
    lemma_filter_holds(m.ints, |v: AbstractValue| passes(m, set, inside, v), whole);
    lemma_filter_holds(
        m.apps,
        |e: (AppKey, AbstractValue)|
            passes(m, set, inside, e.1) && actuals_pass(m, set, inside, e.0.actuals),
        call,
    );
    lemma_filter_holds(
        m.values,
        |e: (TermKey, AbstractValue)|
            passes(m, set, inside, e.1) && operand_passes(m, set, inside, e.0.lhs)
                && operand_passes(m, set, inside, e.0.rhs),
        value,
    );
}

/// Forgetting facts a second time changes nothing.
pub proof fn law_filtered_again(
    m: PhiModel,
    set: Seq<AbstractValue>,
    inside: bool,
    keep_ints: bool,
)
    ensures
        filtered(filtered(m, set, inside, keep_ints), set, inside, keep_ints) == filtered(
            m,
            set,
            inside,
            keep_ints,
        ),
{
    let n = filtered(m, set, inside, keep_ints);
    let lin = |k: PhiModel|
        |e: (AbstractValue, Lin)|
            passes(k, set, inside, e.0) && all_pass(k, set, inside, lin_vars(e.1));
    assert(lin(n) =~= lin(m));
    lemma_filter_twice(m.lin, lin(m));
    let atoms = |k: PhiModel| |a: Atom| atom_passes(k, set, inside, a);
    assert(atoms(n) =~= atoms(m));
    lemma_filter_twice(m.atoms, atoms(m));
    let terms = |k: PhiModel|
        |e: (AbstractValue, TermEq)|
            passes(k, set, inside, e.0) && operand_passes(k, set, inside, e.1.lhs)
                && operand_passes(k, set, inside, e.1.rhs);
    assert(terms(n) =~= terms(m));
    lemma_filter_twice(m.terms, terms(m));
    let itvs = |k: PhiModel| |e: (AbstractValue, CItv)| passes(k, set, inside, e.0);
    assert(itvs(n) =~= itvs(m));
    lemma_filter_twice(m.itvs, itvs(m));
    let ints = |k: PhiModel| |v: AbstractValue| passes(k, set, inside, v);
    assert(ints(n) =~= ints(m));
    lemma_filter_twice(m.ints, ints(m));
    let apps = |k: PhiModel|
        |e: (AppKey, AbstractValue)|
            passes(k, set, inside, e.1) && actuals_pass(k, set, inside, e.0.actuals);
    assert(apps(n) =~= apps(m));
    lemma_filter_twice(m.apps, apps(m));
    let values = |k: PhiModel|
        |e: (TermKey, AbstractValue)|
            passes(k, set, inside, e.1) && operand_passes(k, set, inside, e.0.lhs)
                && operand_passes(k, set, inside, e.0.rhs);
    assert(values(n) =~= values(m));
    lemma_filter_twice(m.values, values(m));
}

} // verus!
