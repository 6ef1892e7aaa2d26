//! The solver's invariant outside of solving: the first state has it, forgetting
//! facts keeps it, and so does exporting witnesses.

use super::atom::Atom;
use super::formula_model::{rewritten_conditions, FormulaModel};
use super::lin_arith::{lin_wf, Lin};
use super::lin_laws::mentions;
use super::meaning::{avoids, phi_wf};
use super::solver::{
    all_pass, atom_passes, empty_phi, filtered, lin_vars, passes, used_in_range, PhiModel,
};
use super::witness::{
    bound_of, export_all, export_one, exported, mentions_restricted, simplified_for_summary,
    with_values, witness_equation, Exported,
};
use crate::abstract_value::AbstractValue;
use crate::ordered::{
    lemma_filter_members, lemma_filter_sorted, lemma_lookup_has_key, lemma_lookup_put,
    lemma_put_members, lemma_put_sorted, lemma_set_del_sorted, lemma_set_filter_sorted, lookup,
};
use crate::rational::lemma_int_wf;
use vstd::prelude::*;

verus! {

/// A solver that knows nothing is well-formed.
pub proof fn law_empty_is_well_formed()
    ensures
        phi_wf(empty_phi()),
{
}

/// Forgetting facts keeps a state well-formed: domain and range of its equations
/// mention distinct variables.
pub proof fn law_filtered_is_well_formed(
    m: PhiModel,
    set: Seq<AbstractValue>,
    inside: bool,
    keep_ints: bool,
)
    requires
        phi_wf(m),
    ensures
        phi_wf(filtered(m, set, inside, keep_ints)),
{
    let n = filtered(m, set, inside, keep_ints);
    let p = |e: (AbstractValue, Lin)|
        passes(m, set, inside, e.0) && all_pass(m, set, inside, lin_vars(e.1));
    lemma_filter_sorted::<AbstractValue, Lin>(m.lin, p);
    lemma_set_filter_sorted::<Atom>(m.atoms, |a: Atom| atom_passes(m, set, inside, a));
    assert forall|i: int| 0 <= i < n.lin.len() implies lin_wf((#[trigger] n.lin[i]).1) && avoids(
        n.lin[i].1,
        n.lin,
    ) by {
        lemma_filter_members(m.lin, p, i);
        let j = choose|j: int| 0 <= j < m.lin.len() && #[trigger] m.lin[j] == n.lin[i];
        assert(lin_wf(m.lin[j].1) && avoids(m.lin[j].1, m.lin));
        assert forall|w: AbstractValue| #[trigger] mentions(n.lin[i].1, w) implies lookup(
            n.lin,
            w,
        ) is None by {
            assert(mentions(m.lin[j].1, w));
            lemma_lookup_has_key(n.lin, w);
            lemma_lookup_has_key(m.lin, w);
            if lookup(n.lin, w) is Some {
                let a = choose|a: int| 0 <= a < n.lin.len() && (#[trigger] n.lin[a]).0 == w;
                lemma_filter_members(m.lin, p, a);
                let b = choose|b: int| 0 <= b < m.lin.len() && #[trigger] m.lin[b] == n.lin[a];
                assert(m.lin[b].0 == w);
            }
        }
    }
}

proof fn lemma_witness_wf(k: i64, largest: bool, w: AbstractValue, v: AbstractValue)
    ensures
        lin_wf(witness_equation(k, largest, w)),
        mentions(witness_equation(k, largest, w), v) <==> v == w,
{
    let l = witness_equation(k, largest, w);
    lemma_int_wf(k);
    lemma_int_wf(1);
    lemma_int_wf((-1) as i64);
    lemma_lookup_has_key(l.vars, v);
    assert(l.vars[0].0 == w);
}

proof fn lemma_export_one_wf(
    e: Exported,
    keep: Seq<AbstractValue>,
    targets: Seq<AbstractValue>,
    a: Atom,
)
    requires
        phi_wf(e.phi),
    ensures
        phi_wf(export_one(e, keep, targets, a).phi),
{
    let r = export_one(e, keep, targets, a);
    if r.made.len() != e.made.len() {
        let (x, k, largest) = bound_of(a)->0;
        let w = AbstractValue(e.next as i64);
        let l = witness_equation(k, largest, w);
        lemma_put_sorted::<AbstractValue, Lin>(e.phi.lin, x, l);
        lemma_set_del_sorted::<Atom>(e.phi.atoms, a);
        lemma_witness_wf(k, largest, w, w);
        assert forall|i: int| 0 <= i < r.phi.lin.len() implies lin_wf((#[trigger] r.phi.lin[i]).1)
            && avoids(r.phi.lin[i].1, r.phi.lin) by {
            lemma_put_members::<AbstractValue, Lin>(e.phi.lin, x, l, i);
            if r.phi.lin[i] == (x, l) {
                assert forall|v: AbstractValue| #[trigger] mentions(l, v) implies lookup(
                    r.phi.lin,
                    v,
                ) is None by {
                    lemma_witness_wf(k, largest, w, v);
                    lemma_lookup_put::<AbstractValue, Lin>(e.phi.lin, x, l, v);
                }
            } else {
                let j = choose|j: int|
                    0 <= j < e.phi.lin.len() && #[trigger] e.phi.lin[j] == r.phi.lin[i];
                assert(lin_wf(e.phi.lin[j].1) && avoids(e.phi.lin[j].1, e.phi.lin));
                assert forall|v: AbstractValue| #[trigger] mentions(
                    r.phi.lin[i].1,
                    v,
                ) implies lookup(r.phi.lin, v) is None by {
                    assert(mentions(e.phi.lin[j].1, v));
                    assert(used_in_range(e.phi.lin, v));
                    lemma_lookup_put::<AbstractValue, Lin>(e.phi.lin, x, l, v);
                }
            }
        }
    }
}

proof fn lemma_export_all_wf(
    e: Exported,
    keep: Seq<AbstractValue>,
    targets: Seq<AbstractValue>,
    s: Seq<Atom>,
)
    requires
        phi_wf(e.phi),
    ensures
        phi_wf(export_all(e, keep, targets, s).phi),
    decreases s.len(),
{
    if s.len() > 0 {
        lemma_export_one_wf(e, keep, targets, s[0]);
        lemma_export_all_wf(
            export_one(e, keep, targets, s[0]),
            keep,
            targets,
            s.drop_first(),
        );
    }
}

/// Simplifying a formula for a summary keeps it well-formed, witnesses included.
pub proof fn law_summary_is_well_formed(
    f: FormulaModel,
    vocabulary: Seq<AbstractValue>,
    keep: Seq<AbstractValue>,
    targets: Seq<AbstractValue>,
    next: int,
)
    requires
        phi_wf(f.phi),
    ensures
        simplified_for_summary(f, vocabulary, keep, targets, next) matches Some(n) ==> phi_wf(n.phi),
{
    if let Some(c) = rewritten_conditions(f, keep) {
        let start = Exported { phi: f.phi, made: Seq::empty(), next };
        lemma_export_all_wf(
            start,
            keep,
            targets,
            f.phi.atoms + c.map_values(|c: (Atom, usize)| c.0),
        );
        let e = exported(f, c, keep, targets, next);
        let m = filtered(e.phi, with_values(keep, e.made), true, false);
        law_filtered_is_well_formed(e.phi, with_values(keep, e.made), true, false);
        lemma_set_filter_sorted::<Atom>(m.atoms, |a: Atom| !mentions_restricted(a));
    }
}

} // verus!
