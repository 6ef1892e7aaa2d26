//! Witnesses for the inequalities of an exported formula.
//!
//! A summary leaves an inequality between a visible value and a constant as an
//! equation: `x <= c` becomes `x = c - w` and `c < x` becomes `x = (c + 1) + w`
//! for a fresh restricted value `w`, that is one that is not negative. The
//! equation takes the place of the comparison.

use super::Formula;
use super::atom::Atom;
use super::formula_model::{kept_conditions, rewritten_conditions, FormulaModel};
use super::lin_arith::{Lin, LinArith};
use super::phi::{is_used_in_range, NewEq, Phi};
use super::resolve::ValueSet;
use super::solver::{filtered, used_in_range, PhiModel};
use super::term::{term_vars, Term};
use super::var_uf::repr;
use crate::abstract_value::{AbstractValue, FreshCounters};
use crate::ordered::{lookup, put, set_del, set_put, Dup, ElementTest, OrdMap};
use crate::rational::{q_int, Q};
use vstd::prelude::*;

verus! {

/// The value that an inequality bounds by a constant, the bound, and whether it
/// is the largest value allowed or the smallest.
///
/// `0 < x` is left as it is, and so is a smallest value of zero: that would be no
/// equation but an alias of the witness.
pub open spec fn bound_of(a: Atom) -> Option<(AbstractValue, i64, bool)> {
    match a {
        Atom::LessEqual(Term::Var(x), Term::Const(c)) => Some((x, c, true)),
        Atom::LessThan(Term::Var(x), Term::Const(c)) => if c > i64::MIN {
            Some((x, (c - 1) as i64, true))
        } else {
            None
        },
        Atom::LessEqual(Term::Const(c), Term::Var(x)) => if c != 0 {
            Some((x, c, false))
        } else {
            None
        },
        Atom::LessThan(Term::Const(c), Term::Var(x)) => if c != 0 && c != -1 && c < i64::MAX {
            Some((x, (c + 1) as i64, false))
        } else {
            None
        },
        _ => None,
    }
}

/// `k - w` for a largest value `k`, `k + w` for a smallest.
pub open spec fn witness_equation(k: i64, largest: bool, w: AbstractValue) -> Lin {
    Lin {
        c: q_int(k),
        vars: seq![
            (
                w,
                if largest {
                    q_int((-1) as i64)
                } else {
                    q_int(1)
                },
            ),
        ],
    }
}

/// The state says nothing about `w` by which it could be told from a fresh value.
pub open spec fn unused(m: PhiModel, w: AbstractValue) -> bool {
    repr(m.eqs, w) == w && lookup(m.lin, w) is None
}

/// `x` is one of the targets and kept, and no equation speaks of it.
pub open spec fn wants_witness(
    m: PhiModel,
    keep: Seq<AbstractValue>,
    targets: Seq<AbstractValue>,
    x: AbstractValue,
) -> bool {
    targets.contains(x) && keep.contains(x) && unused(m, x) && !used_in_range(m.lin, x)
}

/// The state with the witnesses made so far, and the number of the next one.
#[verifier::ext_equal]
pub struct Exported {
    pub phi: PhiModel,
    pub made: Seq<AbstractValue>,
    pub next: int,
}

/// Makes a witness for one comparison, where it bounds a target.
pub open spec fn export_one(
    e: Exported,
    keep: Seq<AbstractValue>,
    targets: Seq<AbstractValue>,
    a: Atom,
) -> Exported {
    let w = AbstractValue(e.next as i64);
    match bound_of(a) {
        None => e,
        Some((x, k, largest)) => if e.next > i64::MIN && wants_witness(e.phi, keep, targets, x) && x
            != w && unused(e.phi, w) {
            Exported {
                phi: PhiModel {
                    lin: put::<AbstractValue, Lin>(
                        e.phi.lin,
                        x,
                        witness_equation(k, largest, w),
                    ),
                    atoms: set_del(e.phi.atoms, a),
                    ..e.phi
                },
                made: e.made.push(w),
                next: e.next - 1,
            }
        } else {
            e
        },
    }
}

pub open spec fn export_all(
    e: Exported,
    keep: Seq<AbstractValue>,
    targets: Seq<AbstractValue>,
    s: Seq<Atom>,
) -> Exported
    decreases s.len(),
{
    if s.len() == 0 {
        e
    } else {
        export_all(export_one(e, keep, targets, s[0]), keep, targets, s.drop_first())
    }
}

pub open spec fn with_values(set: Seq<AbstractValue>, vs: Seq<AbstractValue>) -> Seq<AbstractValue>
    decreases vs.len(),
{
    if vs.len() == 0 {
        set
    } else {
        with_values(set_put::<AbstractValue>(set, vs[0]), vs.drop_first())
    }
}

pub open spec fn mentions_restricted(a: Atom) -> bool {
    exists|i: int|
        0 <= i < (term_vars(a.lhs()) + term_vars(a.rhs())).len() && (#[trigger] (term_vars(a.lhs())
            + term_vars(a.rhs()))[i]).0 < 0
}

pub open spec fn without_restricted(m: PhiModel) -> PhiModel {
    PhiModel { atoms: m.atoms.filter(|a: Atom| !mentions_restricted(a)), ..m }
}

/// What witnesses are made for the comparisons of a formula that is exported.
pub open spec fn exported(
    f: FormulaModel,
    conditions: Seq<(Atom, usize)>,
    keep: Seq<AbstractValue>,
    targets: Seq<AbstractValue>,
    next: int,
) -> Exported {
    export_all(
        Exported { phi: f.phi, made: Seq::empty(), next },
        keep,
        targets,
        f.phi.atoms + conditions.map_values(|c: (Atom, usize)| c.0),
    )
}

/// A formula simplified for a summary: witnesses for the targets, then only the
/// facts about the values to keep and the witnesses, comparisons of restricted
/// values aside, and the conditions within the vocabulary.
pub open spec fn simplified_for_summary(
    f: FormulaModel,
    vocabulary: Seq<AbstractValue>,
    keep: Seq<AbstractValue>,
    targets: Seq<AbstractValue>,
    next: int,
) -> Option<FormulaModel> {
    match rewritten_conditions(f, keep) {
        None => None,
        Some(conditions) => {
            let e = exported(f, conditions, keep, targets, next);
            let phi = without_restricted(
                filtered(e.phi, with_values(keep, e.made), true, false),
            );
            Some(
                FormulaModel { conditions: kept_conditions(phi, conditions, vocabulary), phi },
            )
        },
    }
}

struct NoRestricted {}

impl ElementTest<Atom> for NoRestricted {
    closed spec fn accepts(&self, k: Atom) -> bool {
        !mentions_restricted(k)
    }

    fn test(&self, k: &Atom) -> (b: bool) {
        let vars = k.all_vars();
        let ghost s = term_vars(k.lhs()) + term_vars(k.rhs());
        let mut i: usize = 0;
        while i < vars.len()
            invariant
                i <= vars.len(),
                vars@ == s,
                s == term_vars(k.lhs()) + term_vars(k.rhs()),
                forall|j: int| 0 <= j < i ==> (#[trigger] s[j]).0 >= 0,
            decreases vars.len() - i,
        {
            if vars[i].is_restricted() {
                assert(s[i as int].0 < 0);
                return false;
            }
            i = i + 1;
        }
        true
    }
}

/// The executable form of [`bound_of`].
fn bound_of_atom(a: &Atom) -> (r: Option<(AbstractValue, i64, bool)>)
    ensures
        r == bound_of(*a),
{
    match a {
        Atom::LessEqual(Term::Var(x), Term::Const(c)) => Some((*x, *c, true)),
        Atom::LessThan(Term::Var(x), Term::Const(c)) => if *c > i64::MIN {
            Some((*x, *c - 1, true))
        } else {
            None
        },
        Atom::LessEqual(Term::Const(c), Term::Var(x)) => if *c != 0 {
            Some((*x, *c, false))
        } else {
            None
        },
        Atom::LessThan(Term::Const(c), Term::Var(x)) => if *c != 0 && *c != -1 && *c < i64::MAX {
            Some((*x, *c + 1, false))
        } else {
            None
        },
        _ => None,
    }
}

fn witness_lin(k: i64, largest: bool, w: AbstractValue) -> (r: LinArith)
    ensures
        r@ == witness_equation(k, largest, w),
{
    let mut vars: OrdMap<AbstractValue, Q> = OrdMap::new();
    vars.insert(
        w,
        Q::from_integer(
            if largest {
                -1
            } else {
                1
            },
        ),
    );
    assert(vars@ =~= witness_equation(k, largest, w).vars);
    LinArith { constant: Q::from_integer(k), vars }
}

impl Phi {
    fn is_unused(&self, w: AbstractValue) -> (b: bool)
        ensures
            b == unused(self@, w),
    {
        self.get_repr(w) == w && !self.linear_eqs.contains_key(&w)
    }

    /// Makes a witness for a comparison, where it bounds a target that no equation
    /// speaks of.
    fn export_witness(
        &mut self,
        atom: &Atom,
        keep: &ValueSet,
        targets: &ValueSet,
        made: &mut Vec<AbstractValue>,
        counters: &mut FreshCounters,
    )
        requires
            old(counters).wf(),
        ensures
            final(counters).wf(),
            final(counters).next_fresh == old(counters).next_fresh,
            (Exported {
                phi: final(self)@,
                made: final(made)@,
                next: final(counters).next_fresh_restricted as int,
            }) == export_one(
                Exported {
                    phi: old(self)@,
                    made: old(made)@,
                    next: old(counters).next_fresh_restricted as int,
                },
                keep@,
                targets@,
                *atom,
            ),
    {
        if let Some((x, k, largest)) = bound_of_atom(atom) {
            let w = AbstractValue::of_raw(counters.next_fresh_restricted);
            let wanted = targets.contains(&x) && keep.contains(&x) && self.is_unused(x)
                && !is_used_in_range(&self.linear_eqs, x);
            let fresh = counters.next_fresh_restricted > i64::MIN && x != w && self.is_unused(w);
            if wanted && fresh {
                let witness = AbstractValue::mk_fresh_restricted(counters);
                self.linear_eqs.insert(x, witness_lin(k, largest, witness));
                self.atoms.remove(atom);
                made.push(witness);
            }
        }
    }

    /// Makes witnesses for the given comparisons that bound a target; the
    /// witnesses made.
    pub fn export_inequality_witnesses_for_summary(
        &mut self,
        atoms: &Vec<Atom>,
        keep: &ValueSet,
        witness_targets: &ValueSet,
        counters: &mut FreshCounters,
    ) -> (made: Vec<AbstractValue>)
        requires
            old(counters).wf(),
        ensures
            final(counters).wf(),
            final(counters).next_fresh == old(counters).next_fresh,
            (Exported {
                phi: final(self)@,
                made: made@,
                next: final(counters).next_fresh_restricted as int,
            }) == export_all(
                Exported {
                    phi: old(self)@,
                    made: Seq::empty(),
                    next: old(counters).next_fresh_restricted as int,
                },
                keep@,
                witness_targets@,
                atoms@,
            ),
    {
        let mut made: Vec<AbstractValue> = Vec::new();
        let ghost s = atoms@;
        let ghost start = Exported {
            phi: self@,
            made: made@,
            next: counters.next_fresh_restricted as int,
        };
        let mut i: usize = 0;
        assert(s.skip(0) =~= s);
        while i < atoms.len()
            invariant
                i <= s.len(),
                s == atoms@,
                counters.wf(),
                counters.next_fresh == old(counters).next_fresh,
                export_all(
                    Exported {
                        phi: self@,
                        made: made@,
                        next: counters.next_fresh_restricted as int,
                    },
                    keep@,
                    witness_targets@,
                    s.skip(i as int),
                ) == export_all(start, keep@, witness_targets@, s),
            decreases s.len() - i,
        {
            proof {
                assert(s.skip(i as int)[0] == s[i as int]);
                assert(s.skip(i as int).drop_first() =~= s.skip(i + 1));
            }
            self.export_witness(&atoms[i], keep, witness_targets, &mut made, counters);
            i = i + 1;
        }
        made
    }

    /// Drops the comparisons that mention a restricted value.
    fn drop_restricted_atoms(&mut self)
        ensures
            final(self)@ == without_restricted(old(self)@),
    {
        let test = NoRestricted {  };
        let ghost s = self.atoms@;
        self.atoms.retain(&test);
        assert((|k: Atom| test.accepts(k)) =~= (|a: Atom| !mentions_restricted(a)));
    }
}

fn with_witnesses(keep: &ValueSet, made: &Vec<AbstractValue>) -> (r: ValueSet)
    ensures
        r@ == with_values(keep@, made@),
{
    let mut out = keep.dup();
    let ghost s = made@;
    let mut i: usize = 0;
    assert(s.skip(0) =~= s);
    while i < made.len()
        invariant
            i <= s.len(),
            s == made@,
            with_values(out@, s.skip(i as int)) == with_values(keep@, s),
        decreases s.len() - i,
    {
        proof {
            assert(s.skip(i as int)[0] == s[i as int]);
            assert(s.skip(i as int).drop_first() =~= s.skip(i + 1));
        }
        out.insert(made[i]);
        i = i + 1;
    }
    out
}

impl Formula {
    /// Summary-specific simplification: visible conditions keep their shape,
    /// conditions over other values are rewritten over visible ones, and what
    /// still mentions values outside the vocabulary is dropped. Constraints on
    /// values that are not kept are forgotten; the inequalities of the kept ones
    /// get witnesses.
    pub fn simplify_for_summary(
        &mut self,
        precondition_vocabulary: &ValueSet,
        keep: &ValueSet,
        counters: &mut FreshCounters,
    )
        requires
            old(counters).wf(),
            rewritten_conditions(old(self)@, keep@) is Some,
        ensures
            simplified_for_summary(
                old(self)@,
                precondition_vocabulary@,
                keep@,
                keep@,
                old(counters).next_fresh_restricted as int,
            ) == Some(final(self)@),
            final(counters).wf(),
            final(counters).next_fresh == old(counters).next_fresh,
            final(counters).next_fresh_restricted == exported(
                old(self)@,
                rewritten_conditions(old(self)@, keep@)->0,
                keep@,
                keep@,
                old(counters).next_fresh_restricted as int,
            ).next,
    {
        self.simplify_for_summary_with_witness_targets(
            precondition_vocabulary,
            keep,
            keep,
            counters,
        );
    }

    /// Summary-specific simplification with an explicit set of values that may
    /// receive witnesses, so that none leaks onto values that are only kept because
    /// the formula mentions them.
    pub fn simplify_for_summary_with_witness_targets(
        &mut self,
        precondition_vocabulary: &ValueSet,
        keep: &ValueSet,
        witness_targets: &ValueSet,
        counters: &mut FreshCounters,
    ) -> (new_eqs: Vec<NewEq>)
        requires
            old(counters).wf(),
            rewritten_conditions(old(self)@, keep@) is Some,
        ensures
            new_eqs@.len() == 0,
            simplified_for_summary(
                old(self)@,
                precondition_vocabulary@,
                keep@,
                witness_targets@,
                old(counters).next_fresh_restricted as int,
            ) == Some(final(self)@),
            final(counters).wf(),
            final(counters).next_fresh == old(counters).next_fresh,
            final(counters).next_fresh_restricted == exported(
                old(self)@,
                rewritten_conditions(old(self)@, keep@)->0,
                keep@,
                witness_targets@,
                old(counters).next_fresh_restricted as int,
            ).next,
    {
        self.simplify_for_summary_with_witness_and_eq_zero_targets(
            precondition_vocabulary,
            keep,
            witness_targets,
            keep,
            counters,
        )
    }

    /// As [`Formula::simplify_for_summary_with_witness_targets`], with the values of
    /// which it matters that they are zero. Forgetting other values makes none of
    /// them zero, so no new equation is reported.
    pub fn simplify_for_summary_with_witness_and_eq_zero_targets(
        &mut self,
        precondition_vocabulary: &ValueSet,
        keep: &ValueSet,
        witness_targets: &ValueSet,
        _eq_zero_targets: &ValueSet,
        counters: &mut FreshCounters,
    ) -> (new_eqs: Vec<NewEq>)
        requires
            old(counters).wf(),
            rewritten_conditions(old(self)@, keep@) is Some,
        ensures
            new_eqs@.len() == 0,
            simplified_for_summary(
                old(self)@,
                precondition_vocabulary@,
                keep@,
                witness_targets@,
                old(counters).next_fresh_restricted as int,
            ) == Some(final(self)@),
            final(counters).wf(),
            final(counters).next_fresh == old(counters).next_fresh,
            final(counters).next_fresh_restricted == exported(
                old(self)@,
                rewritten_conditions(old(self)@, keep@)->0,
                keep@,
                witness_targets@,
                old(counters).next_fresh_restricted as int,
            ).next,
    {
        let rewritten = self.rewritten_conditions(keep);
        let atoms = self.summary_atoms(&rewritten);
        let made = self.phi.export_inequality_witnesses_for_summary(
            &atoms,
            keep,
            witness_targets,
            counters,
        );
        let keep_with_witnesses = with_witnesses(keep, &made);
        self.phi.simplify(&keep_with_witnesses);
        self.phi.drop_restricted_atoms();
        self.keep_conditions(rewritten, precondition_vocabulary);
        Vec::new()
    }
}

} // verus!
