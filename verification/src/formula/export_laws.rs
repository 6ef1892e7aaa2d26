//! A formula that is simplified for a summary loses no solution: the witnesses can be
//! given values under which everything exported holds.

use super::Operand;
use super::atom::{atom_holds, Atom};
use super::formula_model::{
    conditions_within, remembered, representatives, rewrite_conditions, rewritten_conditions,
    FormulaModel,
};
use super::lin_arith::{lin_value, sum, Coeffs, Lin, Valuation};
use super::meaning::{is_whole, phi_wf, whole};
use super::path_laws::{
    comparison_value, in_range, law_filtered, law_summarized_atom, operand_value, satisfies,
};
use super::resolve::summarized_atom;
use super::solver::{atom_passes, filtered, PhiModel};
use super::term::{term_value, term_vars, Term};
use super::witness::{
    bound_of, export_all, export_one, exported, mentions_restricted, simplified_for_summary,
    with_values, without_restricted, witness_equation, Exported,
};
use super::witness_laws::law_witness_exists;
use crate::abstract_value::AbstractValue;
use crate::ordered::{lemma_filter_members, lemma_put_members, lookup, set_del};
use vstd::prelude::*;

verus! {

/// The two valuations differ at most where values are still to be handed out.
pub open spec fn agree_above(rho: Valuation, sigma: Valuation, n: int) -> bool {
    forall|v: AbstractValue| v.0 > n ==> #[trigger] rho(v) == sigma(v)
}

pub open spec fn operand_above(o: Operand, n: int) -> bool {
    match o {
        Operand::AbstractValue(v) => v.0 > n,
        Operand::ConstOperand(_) => true,
    }
}

pub open spec fn term_above(t: Term, n: int) -> bool {
    forall|i: int| 0 <= i < term_vars(t).len() ==> (#[trigger] term_vars(t)[i]).0 > n
}

pub open spec fn atom_above(a: Atom, n: int) -> bool {
    term_above(a.lhs(), n) && term_above(a.rhs(), n)
}

pub open spec fn lin_above(l: Lin, n: int) -> bool {
    forall|i: int| 0 <= i < l.vars.len() ==> (#[trigger] l.vars[i]).0.0 > n
}

/// The state speaks of no value that is still to be handed out, `n` being the next.
pub open spec fn speaks_above(m: PhiModel, n: int) -> bool {
    &&& forall|i: int| 0 <= i < m.eqs.len() ==> (#[trigger] m.eqs[i]).0.0 > n && m.eqs[i].1.0 > n
    &&& forall|i: int|
        0 <= i < m.lin.len() ==> (#[trigger] m.lin[i]).0.0 > n && lin_above(m.lin[i].1, n)
    &&& forall|i: int| 0 <= i < m.atoms.len() ==> atom_above(#[trigger] m.atoms[i], n)
    &&& forall|i: int| 0 <= i < m.ints.len() ==> (#[trigger] m.ints[i]).0 > n
    &&& forall|i: int| 0 <= i < m.itvs.len() ==> (#[trigger] m.itvs[i]).0.0 > n
    &&& forall|i: int|
        0 <= i < m.terms.len() ==> (#[trigger] m.terms[i]).0.0 > n && operand_above(
            m.terms[i].1.lhs,
            n,
        ) && operand_above(m.terms[i].1.rhs, n)
}

proof fn lemma_sum_agrees(s: Coeffs, rho: Valuation, sigma: Valuation, n: int)
    requires
        agree_above(rho, sigma, n),
        forall|i: int| 0 <= i < s.len() ==> (#[trigger] s[i]).0.0 > n,
    ensures
        sum(s, rho) == sum(s, sigma),
    decreases s.len(),
{
    if s.len() > 0 {
        let r = s.drop_first();
        assert forall|i: int| 0 <= i < r.len() implies (#[trigger] r[i]).0.0 > n by {
            assert(r[i] == s[i + 1]);
        }
        assert(s[0].0.0 > n);
        assert(rho(s[0].0) == sigma(s[0].0));
        lemma_sum_agrees(r, rho, sigma, n);
    }
}

proof fn lemma_parts_above(t: Term, a: Term, b: Term, n: int)
    requires
        term_above(t, n),
        term_vars(t) == term_vars(a) + term_vars(b),
    ensures
        term_above(a, n),
        term_above(b, n),
{
    let s = term_vars(t);
    assert forall|i: int| 0 <= i < term_vars(a).len() implies (#[trigger] term_vars(a)[i]).0 > n by {
        assert(s[i] == term_vars(a)[i]);
    }
    assert forall|i: int| 0 <= i < term_vars(b).len() implies (#[trigger] term_vars(b)[i]).0 > n by {
        assert(s[term_vars(a).len() + i] == term_vars(b)[i]);
    }
}

proof fn lemma_term_agrees(t: Term, rho: Valuation, sigma: Valuation, n: int)
    requires
        agree_above(rho, sigma, n),
        term_above(t, n),
    ensures
        term_value(t, rho) == term_value(t, sigma),
    decreases t,
{
    match t {
        Term::Var(v) => {
            assert(term_vars(t)[0] == v);
            assert(rho(v) == sigma(v));
        },
        Term::Const(_) | Term::Rational(_) => {},
        Term::Add(a, b) => {
            lemma_parts_above(t, *a, *b, n);
            lemma_term_agrees(*a, rho, sigma, n);
            lemma_term_agrees(*b, rho, sigma, n);
        },
        Term::Sub(a, b) => {
            lemma_parts_above(t, *a, *b, n);
            lemma_term_agrees(*a, rho, sigma, n);
            lemma_term_agrees(*b, rho, sigma, n);
        },
        Term::Mult(a, b) => {
            lemma_parts_above(t, *a, *b, n);
            lemma_term_agrees(*a, rho, sigma, n);
            lemma_term_agrees(*b, rho, sigma, n);
        },
        Term::Neg(a) | Term::Not(a) | Term::IsZero(a) => {
            assert(term_vars(t) == term_vars(*a));
            lemma_term_agrees(*a, rho, sigma, n);
        },
    }
}

proof fn lemma_atom_agrees(a: Atom, rho: Valuation, sigma: Valuation, n: int)
    requires
        agree_above(rho, sigma, n),
        atom_above(a, n),
    ensures
        atom_holds(a, rho) == atom_holds(a, sigma),
{
    lemma_term_agrees(a.lhs(), rho, sigma, n);
    lemma_term_agrees(a.rhs(), rho, sigma, n);
}

/// A state holds under valuations that agree on what it speaks of alike.
proof fn lemma_state_agrees(m: PhiModel, rho: Valuation, sigma: Valuation, n: int)
    requires
        agree_above(rho, sigma, n),
        speaks_above(m, n),
        satisfies(m, rho),
    ensures
        satisfies(m, sigma),
{
    assert forall|i: int| 0 <= i < m.eqs.len() implies sigma((#[trigger] m.eqs[i]).0) == sigma(
        m.eqs[i].1,
    ) by {
        assert(rho(m.eqs[i].0) == rho(m.eqs[i].1));
        assert(rho(m.eqs[i].0) == sigma(m.eqs[i].0));
        assert(rho(m.eqs[i].1) == sigma(m.eqs[i].1));
    }
    assert forall|i: int| 0 <= i < m.lin.len() implies sigma((#[trigger] m.lin[i]).0) == lin_value(
        m.lin[i].1,
        sigma,
    ) by {
        assert(rho(m.lin[i].0) == lin_value(m.lin[i].1, rho));
        assert(rho(m.lin[i].0) == sigma(m.lin[i].0));
        lemma_sum_agrees(m.lin[i].1.vars, rho, sigma, n);
    }
    assert forall|i: int| 0 <= i < m.atoms.len() implies atom_holds(#[trigger] m.atoms[i], sigma) by {
        assert(atom_above(m.atoms[i], n));
        assert(atom_holds(m.atoms[i], rho));
        lemma_atom_agrees(m.atoms[i], rho, sigma, n);
    }
    assert forall|i: int| 0 <= i < m.ints.len() implies is_whole(sigma(#[trigger] m.ints[i])) by {
        assert(is_whole(rho(m.ints[i])));
        assert(rho(m.ints[i]) == sigma(m.ints[i]));
    }
    assert forall|i: int| 0 <= i < m.itvs.len() implies in_range(
        (#[trigger] m.itvs[i]).1,
        sigma(m.itvs[i].0),
    ) by {
        assert(in_range(m.itvs[i].1, rho(m.itvs[i].0)));
        assert(rho(m.itvs[i].0) == sigma(m.itvs[i].0));
    }
    assert forall|i: int| 0 <= i < m.terms.len() implies sigma((#[trigger] m.terms[i]).0)
        == comparison_value(
        m.terms[i].1.op,
        operand_value(m.terms[i].1.lhs, sigma),
        operand_value(m.terms[i].1.rhs, sigma),
    ) by {
        let e = m.terms[i];
        assert(rho(e.0) == sigma(e.0));
        assert(operand_value(e.1.lhs, rho) == operand_value(e.1.lhs, sigma)) by {
            if let Operand::AbstractValue(v) = e.1.lhs {
                assert(rho(v) == sigma(v));
            }
        }
        assert(operand_value(e.1.rhs, rho) == operand_value(e.1.rhs, sigma)) by {
            if let Operand::AbstractValue(v) = e.1.rhs {
                assert(rho(v) == sigma(v));
            }
        }
        assert(rho(m.terms[i].0) == comparison_value(
            m.terms[i].1.op,
            operand_value(m.terms[i].1.lhs, rho),
            operand_value(m.terms[i].1.rhs, rho),
        ));
    }
}

proof fn lemma_set_del_members(s: Seq<Atom>, a: Atom, i: int)
    requires
        0 <= i < set_del(s, a).len(),
    ensures
        exists|j: int| 0 <= j < s.len() && #[trigger] s[j] == set_del(s, a)[i],
    decreases s.len(),
{
    if s.len() > 0 {
        let r = s.drop_first();
        let d = set_del(s, a);
        if s[0] == a {
            assert(s[i + 1] == d[i]);
        } else if i == 0 {
            assert(s[0] == d[0]);
        } else {
            lemma_set_del_members(r, a, i - 1);
            let j = choose|j: int| 0 <= j < r.len() && #[trigger] r[j] == set_del(r, a)[i - 1];
            assert(s[j + 1] == d[i]);
        }
    }
}

/// The valuation with `n` for `w`.
pub open spec fn updated(rho: Valuation, w: AbstractValue, n: nat) -> Valuation {
    |v: AbstractValue|
        if v == w {
            n as real
        } else {
            rho(v)
        }
}

proof fn lemma_bound_above(a: Atom, n: int)
    requires
        atom_above(a, n),
        bound_of(a) is Some,
    ensures
        (bound_of(a)->0).0.0 > n,
{
    assert(term_vars(a.lhs()).len() == 1 || term_vars(a.rhs()).len() == 1);
    let x = (bound_of(a)->0).0;
    match a {
        Atom::LessEqual(Term::Var(_), _) | Atom::LessThan(Term::Var(_), _) => {
            assert(term_vars(a.lhs())[0] == x);
        },
        _ => {
            assert(term_vars(a.rhs())[0] == x);
        },
    }
}

/// One witness gets a value.
proof fn lemma_export_one_sound(
    e: Exported,
    keep: Seq<AbstractValue>,
    targets: Seq<AbstractValue>,
    a: Atom,
    rho: Valuation,
) -> (sigma: Valuation)
    requires
        i64::MIN <= e.next < 0,
        satisfies(e.phi, rho),
        speaks_above(e.phi, e.next),
        atom_above(a, e.next),
        atom_holds(a, rho),
        forall|x: AbstractValue| #[trigger] targets.contains(x) && x.0 > e.next ==> is_whole(rho(x)),
    ensures
        ({
            let r = export_one(e, keep, targets, a);
            &&& satisfies(r.phi, sigma)
            &&& speaks_above(r.phi, r.next)
            &&& agree_above(rho, sigma, e.next)
            &&& i64::MIN <= r.next <= e.next
            &&& forall|v: AbstractValue|
                r.next < v.0 <= e.next ==> #[trigger] sigma(v) >= 0real && is_whole(sigma(v))
        }),
{
    let r = export_one(e, keep, targets, a);
    if r.made.len() == e.made.len() {
        rho
    } else {
        let (x, k, largest) = bound_of(a)->0;
        let w = AbstractValue(e.next as i64);
        let l = witness_equation(k, largest, w);
        lemma_bound_above(a, e.next);
        let n = law_witness_exists(a, w, rho);
        let sigma = updated(rho, w, n);
        assert(agree_above(rho, sigma, e.next));
        lemma_state_agrees(e.phi, rho, sigma, e.next);
        assert(rho(x) == sigma(x));
        assert(sigma =~= (|v: AbstractValue|
            if v == w {
                n as real
            } else {
                rho(v)
            }));
        assert(sigma(x) == lin_value(l, sigma));
        assert forall|i: int| 0 <= i < r.phi.lin.len() implies sigma((#[trigger] r.phi.lin[i]).0)
            == lin_value(r.phi.lin[i].1, sigma) && r.phi.lin[i].0.0 > r.next && lin_above(
            r.phi.lin[i].1,
            r.next,
        ) by {
            lemma_put_members::<AbstractValue, Lin>(e.phi.lin, x, l, i);
            if r.phi.lin[i] != (x, l) {
                let j = choose|j: int|
                    0 <= j < e.phi.lin.len() && #[trigger] e.phi.lin[j] == r.phi.lin[i];
                assert(lin_above(e.phi.lin[j].1, e.next));
                assert(sigma(e.phi.lin[j].0) == lin_value(e.phi.lin[j].1, sigma));
            }
        }
        assert forall|i: int| 0 <= i < r.phi.atoms.len() implies atom_holds(
            #[trigger] r.phi.atoms[i],
            sigma,
        ) && atom_above(r.phi.atoms[i], r.next) by {
            lemma_set_del_members(e.phi.atoms, a, i);
            let j = choose|j: int|
                0 <= j < e.phi.atoms.len() && #[trigger] e.phi.atoms[j] == r.phi.atoms[i];
            assert(atom_holds(e.phi.atoms[j], sigma));
            assert(atom_above(e.phi.atoms[j], e.next));
        }
        assert forall|v: AbstractValue|
            r.next < v.0 <= e.next implies #[trigger] sigma(v) >= 0real && is_whole(sigma(v)) by {
            assert(v == w);
            assert(sigma(v) == whole(n as int));
        }
        sigma
    }
}

proof fn lemma_export_sound(
    e: Exported,
    keep: Seq<AbstractValue>,
    targets: Seq<AbstractValue>,
    s: Seq<Atom>,
    rho: Valuation,
) -> (sigma: Valuation)
    requires
        i64::MIN <= e.next < 0,
        satisfies(e.phi, rho),
        speaks_above(e.phi, e.next),
        forall|i: int|
            0 <= i < s.len() ==> atom_above(#[trigger] s[i], e.next) && atom_holds(s[i], rho),
        forall|x: AbstractValue| #[trigger] targets.contains(x) && x.0 > e.next ==> is_whole(rho(x)),
    ensures
        ({
            let r = export_all(e, keep, targets, s);
            &&& satisfies(r.phi, sigma)
            &&& agree_above(rho, sigma, e.next)
            &&& forall|v: AbstractValue| r.next < v.0 <= e.next ==> #[trigger] sigma(v) >= 0real
        }),
    decreases s.len(),
{
    if s.len() == 0 {
        rho
    } else {
        assert(atom_above(s[0], e.next) && atom_holds(s[0], rho));
        let mid = lemma_export_one_sound(e, keep, targets, s[0], rho);
        let e1 = export_one(e, keep, targets, s[0]);
        let rest = s.drop_first();
        assert forall|i: int| 0 <= i < rest.len() implies atom_above(#[trigger] rest[i], e1.next)
            && atom_holds(rest[i], mid) by {
            assert(rest[i] == s[i + 1]);
            assert(atom_above(s[i + 1], e.next));
            lemma_atom_agrees(s[i + 1], rho, mid, e.next);
        }
        assert forall|x: AbstractValue| #[trigger]
            targets.contains(x) && x.0 > e1.next implies is_whole(mid(x)) by {
            if x.0 > e.next {
                assert(rho(x) == mid(x));
            }
        }
        let sigma = lemma_export_sound(e1, keep, targets, rest, mid);
        assert forall|v: AbstractValue| v.0 > e.next implies #[trigger] rho(v) == sigma(v) by {
            assert(rho(v) == mid(v));
            assert(mid(v) == sigma(v));
        }
        let r = export_all(e, keep, targets, s);
        assert forall|v: AbstractValue| r.next < v.0 <= e.next implies #[trigger] sigma(v)
            >= 0real by {
            if v.0 > e1.next {
                assert(mid(v) == sigma(v));
                assert(mid(v) >= 0real);
            }
        }
        sigma
    }
}

/// Rewritten conditions hold where the conditions do.
proof fn lemma_rewritten_hold(
    m: PhiModel,
    s: Seq<(Atom, usize)>,
    keep: Seq<AbstractValue>,
    acc: Seq<(Atom, usize)>,
    rho: Valuation,
)
    requires
        phi_wf(m),
        satisfies(m, rho),
        rewrite_conditions(m, s, keep, acc) is Some,
        forall|i: int| 0 <= i < s.len() ==> atom_holds((#[trigger] s[i]).0, rho),
        forall|i: int| 0 <= i < acc.len() ==> atom_holds((#[trigger] acc[i]).0, rho),
    ensures
        forall|i: int|
            0 <= i < (rewrite_conditions(m, s, keep, acc)->0).len() ==> atom_holds(
                (#[trigger] (rewrite_conditions(m, s, keep, acc)->0)[i]).0,
                rho,
            ),
    decreases s.len(),
{
    if s.len() > 0 {
        let a = summarized_atom(m, keep, s[0].0)->0;
        assert(atom_holds(s[0].0, rho));
        law_summarized_atom(m, keep, s[0].0, rho);
        let rest = s.drop_first();
        assert forall|i: int| 0 <= i < rest.len() implies atom_holds((#[trigger] rest[i]).0, rho) by {
            assert(rest[i] == s[i + 1]);
        }
        let next = acc.push((a, s[0].1));
        assert forall|i: int| 0 <= i < next.len() implies atom_holds((#[trigger] next[i]).0, rho) by {
            if i < acc.len() {
                assert(next[i] == acc[i]);
            }
        }
        if super::atom::atom_trivial(a)->0 == Some(true) {
            lemma_rewritten_hold(m, rest, keep, acc, rho);
        } else {
            lemma_rewritten_hold(m, rest, keep, next, rho);
        }
    }
}

/// The conditions that are kept are some of those given.
proof fn lemma_kept_hold(
    m: PhiModel,
    s: Seq<(Atom, usize)>,
    vocabulary: Seq<AbstractValue>,
    acc: Seq<(Atom, usize)>,
    rho: Valuation,
)
    requires
        forall|i: int| 0 <= i < s.len() ==> atom_holds((#[trigger] s[i]).0, rho),
        forall|i: int| 0 <= i < acc.len() ==> atom_holds((#[trigger] acc[i]).0, rho),
    ensures
        forall|i: int|
            0 <= i < conditions_within(m, s, vocabulary, acc).len() ==> atom_holds(
                (#[trigger] conditions_within(m, s, vocabulary, acc)[i]).0,
                rho,
            ),
    decreases s.len(),
{
    if s.len() > 0 {
        let rest = s.drop_first();
        assert(atom_holds(s[0].0, rho));
        assert forall|i: int| 0 <= i < rest.len() implies atom_holds((#[trigger] rest[i]).0, rho) by {
            assert(rest[i] == s[i + 1]);
        }
        let next = remembered(acc, s[0].0, s[0].1);
        let d = match lookup(acc, s[0].0) {
            Some(e) => if e < s[0].1 {
                e
            } else {
                s[0].1
            },
            None => s[0].1,
        };
        assert forall|i: int| 0 <= i < next.len() implies atom_holds((#[trigger] next[i]).0, rho) by {
            lemma_put_members::<Atom, usize>(acc, s[0].0, d, i);
        }
        if atom_passes(m, vocabulary, true, s[0].0) {
            lemma_kept_hold(m, rest, vocabulary, next, rho);
            assert(conditions_within(m, s, vocabulary, acc) == conditions_within(
                m,
                rest,
                vocabulary,
                next,
            ));
        } else {
            lemma_kept_hold(m, rest, vocabulary, acc, rho);
            assert(conditions_within(m, s, vocabulary, acc) == conditions_within(
                m,
                rest,
                vocabulary,
                acc,
            ));
        }
    }
}

/// Simplifying for a summary loses no solution. Every valuation of a formula in which
/// the targets are integers can be changed on the witnesses alone, to values that are
/// not negative, so that it satisfies what is exported.
pub proof fn law_summary_loses_no_solution(
    f: FormulaModel,
    vocabulary: Seq<AbstractValue>,
    keep: Seq<AbstractValue>,
    targets: Seq<AbstractValue>,
    next: int,
    rho: Valuation,
) -> (sigma: Valuation)
    requires
        i64::MIN <= next < 0,
        phi_wf(f.phi),
        satisfies(f.phi, rho),
        forall|i: int| 0 <= i < f.conditions.len() ==> atom_holds((#[trigger] f.conditions[i]).0, rho),
        forall|x: AbstractValue| #[trigger] targets.contains(x) ==> is_whole(rho(x)),
        speaks_above(f.phi, next),
        rewritten_conditions(f, keep) matches Some(c) && forall|i: int|
            0 <= i < c.len() ==> atom_above((#[trigger] c[i]).0, next),
    ensures
        simplified_for_summary(f, vocabulary, keep, targets, next) matches Some(after) && satisfies(
            after.phi,
            sigma,
        ) && forall|i: int|
            0 <= i < after.conditions.len() ==> atom_holds(
                (#[trigger] after.conditions[i]).0,
                sigma,
            ),
        agree_above(rho, sigma, next),
        forall|v: AbstractValue|
            exported(f, rewritten_conditions(f, keep)->0, keep, targets, next).next < v.0 <= next
                ==> #[trigger] sigma(v) >= 0real,
{
    let c = rewritten_conditions(f, keep)->0;
    lemma_rewritten_hold(f.phi, f.conditions, keep, Seq::empty(), rho);
    let t = c.map_values(|c: (Atom, usize)| c.0);
    let s = f.phi.atoms + t;
    assert forall|i: int| 0 <= i < s.len() implies atom_above(#[trigger] s[i], next) && atom_holds(
        s[i],
        rho,
    ) by {
        if i < f.phi.atoms.len() {
            assert(s[i] == f.phi.atoms[i]);
            assert(atom_above(f.phi.atoms[i], next) && atom_holds(f.phi.atoms[i], rho));
        } else {
            let j = i - f.phi.atoms.len();
            assert(s[i] == c[j].0);
            assert(atom_above(c[j].0, next) && atom_holds(c[j].0, rho));
        }
    }
    let start = Exported { phi: f.phi, made: Seq::empty(), next };
    let sigma = lemma_export_sound(start, keep, targets, s, rho);
    let e = exported(f, c, keep, targets, next);
    let set = with_values(keep, e.made);
    let m = filtered(e.phi, set, true, false);
    law_filtered(e.phi, set, true, false, sigma);
    let phi = without_restricted(m);
    let p = |a: Atom| !mentions_restricted(a);
    assert forall|i: int| 0 <= i < phi.atoms.len() implies atom_holds(
        #[trigger] phi.atoms[i],
        sigma,
    ) by {
        lemma_filter_members(m.atoms, p, i);
        let j = choose|j: int| 0 <= j < m.atoms.len() && #[trigger] m.atoms[j] == m.atoms.filter(
            p,
        )[i];
        assert(atom_holds(m.atoms[j], sigma));
    }
    assert forall|i: int| 0 <= i < c.len() implies atom_holds((#[trigger] c[i]).0, sigma) by {
        assert(atom_above(c[i].0, next));
        lemma_atom_agrees(c[i].0, rho, sigma, next);
    }
    lemma_kept_hold(phi, c, representatives(phi, vocabulary), Seq::empty(), sigma);
    sigma
}

} // verus!
