//! Formula solver: tracks constraints between abstract values.
//!
//! The formula tracks
//! - equality classes via union-find (which values are known equal),
//! - linear equations (`x = 2y + 3`) for arithmetic reasoning,
//! - atoms (inequality and disequality constraints).
//!
//! This enables path-sensitive analysis: after `if (p != NULL)`, the true
//! branch knows p is not 0 and the false branch knows p is 0.

pub mod apart_laws;
pub mod atom;
pub mod binop_entail;
pub mod binop_laws;
pub mod citv;
pub mod entail_laws;
pub mod export_laws;
pub mod first_facts;
pub mod fits;
pub mod fold_laws;
pub mod formula_model;
pub mod known_laws;
pub mod lin_arith;
pub mod lin_laws;
pub mod meaning;
pub mod path_laws;
pub mod phi;
pub mod progress_laws;
pub mod query_laws;
pub mod range_laws;
pub mod reach_laws;
pub mod reachable;
pub mod resolve;
pub mod simplify_laws;
pub mod solver;
pub mod term;
pub mod var_uf;
pub mod witness;
pub mod witness_laws;

use crate::abstract_value::AbstractValue;
use crate::binop::Binop;
use crate::ordered::{Alike, Dup, OrdMap, Selector};
use crate::rational::Q;
use crate::sat_unsat::SatUnsat;
use self::atom::{atom_trivial, Atom};
use self::citv::{AbductionResult, Bound, CItv};
use self::formula_model::{
    atom_texts, check_ranges, comparison_atom, conjoined, enforce, equal_binop, equal_binop_inner,
    equal_operands, equation_texts, fold_ints, formula_filtered, is_comparison, kept_conditions,
    known_nonzero, known_zero_for_summary, less, lifted, normalized, not_equal, operand_int,
    operand_itv, operand_lin, operand_rational, operand_term, prune_const, prune_equal, prune_order,
    recorded, refine_operand, rewritten_conditions, simple_operand, FormulaModel,
};
use self::lin_arith::LinArith;
use self::phi::{report, NewEq, Phi, TermEq};
use self::resolve::{normalized_condition, ValueSet};
use self::solver::{
    empty_phi, known_const, marked_int, run_atom, run_const_eq, run_fn_app, run_linear_eq,
    run_var_equal,
};
use self::term::Term;
use self::var_uf::repr;
use vstd::prelude::*;

verus! {

/// An operand in a formula constraint: either a variable or a constant.
#[derive(Clone, Copy, Debug, PartialEq, Eq, Structural)]
pub enum Operand {
    AbstractValue(AbstractValue),
    ConstOperand(i64),
}

/// The formula: the solver state with the conditions recorded along the path.
#[derive(Debug, PartialEq, Eq)]
pub struct Formula {
    conditions: OrdMap<Atom, usize>,
    phi: Phi,
}

impl View for Formula {
    type V = FormulaModel;

    closed spec fn view(&self) -> FormulaModel {
        FormulaModel { conditions: self.conditions@, phi: self.phi@ }
    }
}

impl Alike for AbstractValue {
    fn alike(&self, other: &Self) -> (b: bool) {
        *self == *other
    }
}

impl Alike for TermEq {
    fn alike(&self, other: &Self) -> (b: bool) {
        *self == *other
    }
}

impl Alike for CItv {
    fn alike(&self, other: &Self) -> (b: bool) {
        *self == *other
    }
}

impl Alike for Q {
    fn alike(&self, other: &Self) -> (b: bool) {
        *self == *other
    }
}

impl Alike for LinArith {
    fn alike(&self, other: &Self) -> (b: bool) {
        self.constant == other.constant && self.vars.alike(&other.vars)
    }
}

impl Alike for Formula {
    fn alike(&self, other: &Self) -> (b: bool) {
        self.conditions.alike(&other.conditions) && self.phi.var_eqs == other.phi.var_eqs
            && self.phi.linear_eqs.alike(&other.phi.linear_eqs) && self.phi.atoms.alike(
            &other.phi.atoms,
        ) && self.phi.term_eqs.alike(&other.phi.term_eqs) && self.phi.intervals.alike(
            &other.phi.intervals,
        ) && self.phi.is_int_vars.alike(&other.phi.is_int_vars) && self.phi.fn_app_eqs.alike(
            &other.phi.fn_app_eqs,
        ) && self.phi.term_values.alike(&other.phi.term_values)
    }
}

impl Clone for Formula {
    fn clone(&self) -> (r: Self)
        ensures
            r@ == self@,
    {
        Formula { conditions: self.conditions.dup(), phi: self.phi.clone() }
    }
}

impl Formula {
    /// The formula as it is shown.
    pub fn to_string(&self) -> (r: String)
        ensures
            r@ == self@.text(),
    {
        let ghost eqs = equation_texts(self@.phi.lin);
        let ghost parts = eqs + atom_texts(self@.phi.atoms);
        if self.phi.linear_eqs.is_empty() && self.phi.atoms.is_empty() {
            return "true".to_string();
        }
        let mut out = String::new();
        let mut i: usize = 0;
        assert(parts.take(0) =~= seq![]);
        assert(out@ =~= conjoined(parts.take(0)));
        while i < self.phi.linear_eqs.len()
            invariant
                eqs == equation_texts(self.phi.linear_eqs@),
                parts == eqs + atom_texts(self.phi.atoms@),
                i <= self.phi.linear_eqs@.len(),
                out@ == conjoined(parts.take(i as int)),
            decreases self.phi.linear_eqs@.len() - i,
        {
            let ghost t = parts.take(i + 1);
            assert(t.drop_last() =~= parts.take(i as int));
            assert(t.last() == eqs[i as int]);
            if i > 0 {
                out.append(" ∧ ");
            }
            let ghost before = out@;
            self.phi.linear_eqs.key_at(i).push_text(&mut out);
            out.append(" = ");
            self.phi.linear_eqs.value_at(i).push_text(&mut out);
            assert(out@ =~= before + eqs[i as int]);
            assert(out@ =~= conjoined(t));
            i = i + 1;
        }
        let n: usize = i;
        let mut j: usize = 0;
        while j < self.phi.atoms.len()
            invariant
                eqs == equation_texts(self.phi.linear_eqs@),
                parts == eqs + atom_texts(self.phi.atoms@),
                n == eqs.len(),
                j <= self.phi.atoms@.len(),
                out@ == conjoined(parts.take(n + j)),
            decreases self.phi.atoms@.len() - j,
        {
            let ghost t = parts.take(n + j + 1);
            assert(t.drop_last() =~= parts.take(n + j));
            assert(t.last() == atom_texts(self.phi.atoms@)[j as int]);
            if n > 0 || j > 0 {
                out.append(" ∧ ");
            }
            let ghost before = out@;
            let part = self.phi.atoms.at(j).to_string();
            out.append(part.as_str());
            assert(out@ =~= before + t.last());
            assert(out@ =~= conjoined(t));
            j = j + 1;
        }
        assert(parts.take(n + j) =~= parts);
        out
    }

    /// Create an empty formula (trivially satisfiable).
    pub fn ttrue() -> (r: Self)
        ensures
            r@ == (FormulaModel { conditions: Seq::empty(), phi: empty_phi() }),
    {
        Formula { conditions: OrdMap::new(), phi: Phi::ttrue() }
    }

    /// Access the inner solver state.
    pub fn phi(&self) -> (r: &Phi)
        ensures
            r@ == self@.phi,
    {
        &self.phi
    }

    /// Access the recorded prune conditions and the call depth at which they
    /// were added. Depth 0 means local to the current procedure.
    pub fn conditions(&self) -> (r: &OrdMap<Atom, usize>)
        ensures
            r@ == self@.conditions,
    {
        &self.conditions
    }

    /// Add an atom constraint directly.
    pub fn and_atom_direct(&mut self, atom: Atom) -> (r: SatUnsat<Vec<NewEq>>)
        requires
            run_atom(old(self)@.phi, atom) is Some,
        ensures
            lifted(old(self)@, run_atom(old(self)@.phi, atom)) == Some(
                (final(self)@, report(r)),
            ),
    {
        self.phi.and_atom(atom)
    }

    /// Add a translated callee condition and remember its call depth.
    pub fn and_condition_direct(&mut self, atom: Atom, depth: usize) -> (r: SatUnsat<Vec<NewEq>>)
        requires
            recorded(
                normalized(old(self)@, atom),
                enforce(old(self)@, atom),
                depth,
            ) is Some,
        ensures
            recorded(normalized(old(self)@, atom), enforce(old(self)@, atom), depth) == Some(
                (final(self)@, report(r)),
            ),
    {
        let normalized_condition = self.normalize_condition_atom(&atom);
        let result = self.enforce_condition_atom(&atom);
        self.record_result(normalized_condition, depth, &result);
        result
    }

    /// Get the canonical representative of a variable.
    pub fn get_var_repr(&self, v: AbstractValue) -> (r: AbstractValue)
        ensures
            r == repr(self@.phi.eqs, v),
    {
        self.phi.get_repr(v)
    }

    /// Check if a variable is known to equal zero.
    pub fn is_known_zero(&self, v: AbstractValue) -> (b: bool)
        ensures
            b == (known_const(self@.phi, v) matches Some(q) && q.numer == 0),
    {
        self.phi.is_known_zero(v)
    }

    /// Check whether summary-space simplification proves a visible value is
    /// equal to zero, even if the proof currently goes through dead alias or
    /// arithmetic temporaries that `simplify_for_summary` is about to erase.
    pub fn is_known_zero_for_summary(
        &self,
        v: AbstractValue,
        precondition_vocabulary: &ValueSet,
        keep: &ValueSet,
    ) -> (b: bool)
        requires
            known_zero_for_summary(self@.phi, v, keep@) is Some,
        ensures
            Some(b) == known_zero_for_summary(self@.phi, v, keep@),
    {
        let atom = self.phi.simplify_condition_atom_for_summary(
            &Atom::Equal(Term::Var(v), Term::Const(0)),
            keep,
        );
        match atom.is_trivially_true() {
            Some(true) => {
                return true;
            },
            _ => {},
        }
        match &atom {
            Atom::Equal(Term::Var(w), Term::Const(c)) => *c == 0 && self.phi.get_repr(*w)
                == self.phi.get_repr(v),
            Atom::Equal(Term::Const(c), Term::Var(w)) => *c == 0 && self.phi.get_repr(*w)
                == self.phi.get_repr(v),
            _ => false,
        }
    }

    /// Check if a variable is known to be non-zero (positive or has
    /// `NotEqual(v, 0)`).
    pub fn is_known_nonzero(&self, v: AbstractValue) -> (b: bool)
        ensures
            b == known_nonzero(self@.phi, v),
    {
        let repr_v = self.phi.get_repr(v);
        match self.phi.get_known_const(v) {
            Some(q) => {
                return !q.is_zero();
            },
            None => {},
        }
        match self.phi.get_interval(v) {
            Some(CItv::Between(Bound::Int(n), _)) => {
                if *n > 0 {
                    return true;
                }
            },
            _ => {},
        }
        self.phi.atoms.contains(&Atom::LessThan(Term::Const(0), Term::Var(repr_v)))
            || self.phi.atoms.contains(&Atom::NotEqual(Term::Var(repr_v), Term::Const(0)))
            || self.phi.atoms.contains(&Atom::NotEqual(Term::Const(0), Term::Var(repr_v)))
    }

    /// The constant a variable is known to equal.
    pub fn is_known_const(&self, v: AbstractValue) -> (r: Option<Q>)
        ensures
            r == known_const(self@.phi, v),
    {
        self.phi.get_known_const(v)
    }

    /// Record that two operands are equal.
    pub fn and_equal(&mut self, op1: &Operand, op2: &Operand) -> (r: SatUnsat<Vec<NewEq>>)
        requires
            equal_operands(old(self)@.phi, *op1, *op2) is Some,
        ensures
            lifted(old(self)@, equal_operands(old(self)@.phi, *op1, *op2)) == Some(
                (final(self)@, report(r)),
            ),
    {
        match (op1, op2) {
            (Operand::AbstractValue(v1), Operand::AbstractValue(v2)) => {
                self.phi.and_var_equal(*v1, *v2)
            },
            (Operand::AbstractValue(v), Operand::ConstOperand(c)) => self.phi.and_const_eq(*v, *c),
            (Operand::ConstOperand(c), Operand::AbstractValue(v)) => self.phi.and_const_eq(*v, *c),
            (Operand::ConstOperand(c1), Operand::ConstOperand(c2)) => {
                if *c1 == *c2 {
                    SatUnsat::Sat(Vec::new())
                } else {
                    SatUnsat::Unsat
                }
            },
        }
    }

    /// Record that two variables are equal.
    pub fn and_equal_vars(&mut self, v1: AbstractValue, v2: AbstractValue) -> (r: SatUnsat<
        Vec<NewEq>,
    >)
        requires
            run_var_equal(old(self)@.phi, v1, v2) is Some,
        ensures
            lifted(old(self)@, run_var_equal(old(self)@.phi, v1, v2)) == Some(
                (final(self)@, report(r)),
            ),
    {
        self.phi.and_var_equal(v1, v2)
    }

    /// Record that a variable equals a constant.
    pub fn and_equal_const(&mut self, v: AbstractValue, c: i64) -> (r: SatUnsat<Vec<NewEq>>)
        requires
            run_const_eq(old(self)@.phi, v, c) is Some,
        ensures
            lifted(old(self)@, run_const_eq(old(self)@.phi, v, c)) == Some(
                (final(self)@, report(r)),
            ),
    {
        self.phi.and_const_eq(v, c)
    }

    /// Record a pure function application: ret_val = f(actuals).
    /// If the same function with same actuals was seen before, unify return
    /// values.
    pub fn and_fn_app(
        &mut self,
        ret_val: AbstractValue,
        callee: &str,
        actuals: &Vec<AbstractValue>,
    ) -> (r: SatUnsat<Vec<NewEq>>)
        requires
            run_fn_app(old(self)@.phi, ret_val, callee@, actuals@) is Some,
        ensures
            lifted(old(self)@, run_fn_app(old(self)@.phi, ret_val, callee@, actuals@)) == Some(
                (final(self)@, report(r)),
            ),
    {
        self.phi.and_fn_app(ret_val, callee, actuals)
    }

    /// Record that a variable equals a linear expression.
    pub fn and_equal_linear(&mut self, v: AbstractValue, lin: LinArith) -> (r: SatUnsat<
        Vec<NewEq>,
    >)
        requires
            run_linear_eq(old(self)@.phi, v, lin@) is Some,
        ensures
            lifted(old(self)@, run_linear_eq(old(self)@.phi, v, lin@)) == Some(
                (final(self)@, report(r)),
            ),
    {
        self.phi.and_linear_eq(v, lin)
    }

    /// Record that two operands are not equal.
    pub fn and_not_equal(&mut self, op1: &Operand, op2: &Operand) -> (r: SatUnsat<Vec<NewEq>>)
        requires
            not_equal(old(self)@.phi, *op1, *op2) is Some,
        ensures
            lifted(old(self)@, not_equal(old(self)@.phi, *op1, *op2)) == Some(
                (final(self)@, report(r)),
            ),
    {
        let t1 = operand_to_term(op1, &self.phi);
        let t2 = operand_to_term(op2, &self.phi);
        self.phi.and_atom(Atom::NotEqual(t1, t2))
    }

    /// Record that op1 <= op2.
    pub fn and_less_equal(&mut self, op1: &Operand, op2: &Operand) -> (r: SatUnsat<Vec<NewEq>>)
        requires
            less(old(self)@.phi, false, *op1, *op2) is Some,
        ensures
            lifted(old(self)@, less(old(self)@.phi, false, *op1, *op2)) == Some(
                (final(self)@, report(r)),
            ),
    {
        if !self.check_citv_binop(&Binop::Le, op1, op2) {
            return SatUnsat::Unsat;
        }
        let t1 = operand_to_term(op1, &self.phi);
        let t2 = operand_to_term(op2, &self.phi);
        self.phi.and_atom(Atom::LessEqual(t1, t2))
    }

    /// Record that v > 0 (v is positive / non-null).
    pub fn and_positive(&mut self, v: AbstractValue) -> (r: SatUnsat<Vec<NewEq>>)
        requires
            less(
                old(self)@.phi,
                true,
                Operand::ConstOperand(0),
                Operand::AbstractValue(v),
            ) is Some,
        ensures
            lifted(
                old(self)@,
                less(old(self)@.phi, true, Operand::ConstOperand(0), Operand::AbstractValue(v)),
            ) == Some((final(self)@, report(r))),
    {
        self.and_less_than(&Operand::ConstOperand(0), &Operand::AbstractValue(v))
    }

    /// Record that op1 < op2.
    pub fn and_less_than(&mut self, op1: &Operand, op2: &Operand) -> (r: SatUnsat<Vec<NewEq>>)
        requires
            less(old(self)@.phi, true, *op1, *op2) is Some,
        ensures
            lifted(old(self)@, less(old(self)@.phi, true, *op1, *op2)) == Some(
                (final(self)@, report(r)),
            ),
    {
        if !self.check_citv_binop(&Binop::Lt, op1, op2) {
            return SatUnsat::Unsat;
        }
        let t1 = operand_to_term(op1, &self.phi);
        let t2 = operand_to_term(op2, &self.phi);
        self.phi.and_atom(Atom::LessThan(t1, t2))
    }

    /// Mark a variable as integer-typed. When the linear solver later derives
    /// a non-integer rational for this variable, the path is Unsat.
    pub fn and_is_int(&mut self, v: AbstractValue)
        ensures
            final(self)@ == (FormulaModel { phi: marked_int(old(self)@.phi, v), ..old(self)@ }),
    {
        self.phi.mark_is_int(v);
    }

    /// Add a prune constraint (from a branch condition).
    pub fn prune_eq(&mut self, v1: AbstractValue, v2: AbstractValue, negated: bool) -> (r: SatUnsat<
        Vec<NewEq>,
    >)
        requires
            prune_equal(old(self)@, v1, v2, negated, 0) is Some,
        ensures
            prune_equal(old(self)@, v1, v2, negated, 0) == Some((final(self)@, report(r))),
    {
        self.prune_eq_with_depth(v1, v2, negated, 0)
    }

    /// Add a prune equality or disequality at a specific call depth.
    pub fn prune_eq_with_depth(
        &mut self,
        v1: AbstractValue,
        v2: AbstractValue,
        negated: bool,
        depth: usize,
    ) -> (r: SatUnsat<Vec<NewEq>>)
        requires
            prune_equal(old(self)@, v1, v2, negated, depth) is Some,
        ensures
            prune_equal(old(self)@, v1, v2, negated, depth) == Some((final(self)@, report(r))),
    {
        let bop = if negated {
            Binop::Ne
        } else {
            Binop::Eq
        };
        let op1 = Operand::AbstractValue(v1);
        let op2 = Operand::AbstractValue(v2);
        if !self.check_citv_binop(&bop, &op1, &op2) {
            return SatUnsat::Unsat;
        }
        let t1 = operand_to_term(&op1, &self.phi);
        let t2 = operand_to_term(&op2, &self.phi);
        let condition_atom = if negated {
            Atom::NotEqual(t1, t2)
        } else {
            Atom::Equal(t1, t2)
        };
        let normalized_condition = self.normalize_condition_atom(&condition_atom);
        let result = if negated {
            self.and_not_equal(&op1, &op2)
        } else {
            self.phi.and_var_equal(v1, v2)
        };
        self.record_result(normalized_condition, depth, &result);
        result
    }

    /// Record a local `<` prune condition.
    pub fn prune_less_than(&mut self, op1: &Operand, op2: &Operand) -> (r: SatUnsat<Vec<NewEq>>)
        requires
            prune_order(old(self)@, true, *op1, *op2) is Some,
        ensures
            prune_order(old(self)@, true, *op1, *op2) == Some((final(self)@, report(r))),
    {
        let atom = Atom::LessThan(
            operand_to_term(op1, &self.phi),
            operand_to_term(op2, &self.phi),
        );
        let normalized_condition = self.normalize_condition_atom(&atom);
        let result = self.and_less_than(op1, op2);
        self.record_result(normalized_condition, 0, &result);
        result
    }

    /// Record a local `<=` prune condition.
    pub fn prune_less_equal(&mut self, op1: &Operand, op2: &Operand) -> (r: SatUnsat<Vec<NewEq>>)
        requires
            prune_order(old(self)@, false, *op1, *op2) is Some,
        ensures
            prune_order(old(self)@, false, *op1, *op2) == Some((final(self)@, report(r))),
    {
        let atom = Atom::LessEqual(
            operand_to_term(op1, &self.phi),
            operand_to_term(op2, &self.phi),
        );
        let normalized_condition = self.normalize_condition_atom(&atom);
        let result = self.and_less_equal(op1, op2);
        self.record_result(normalized_condition, 0, &result);
        result
    }

    /// Check a comparison against the ranges of its operands, refining them;
    /// `false` when the comparison is infeasible.
    fn check_citv_binop(&mut self, bop: &Binop, op1: &Operand, op2: &Operand) -> (b: bool)
        requires
            check_ranges(old(self)@.phi, *bop, *op1, *op2) is Some,
        ensures
            check_ranges(old(self)@.phi, *bop, *op1, *op2) == Some((final(self)@.phi, b)),
            final(self)@.conditions == old(self)@.conditions,
    {
        let i1 = operand_interval(op1, &self.phi);
        let i2 = operand_interval(op2, &self.phi);
        if i1.is_none() && i2.is_none() {
            return true;
        }
        match CItv::abduce_binop_is_true(false, bop, i1.as_ref(), i2.as_ref()) {
            AbductionResult::Unsatisfiable => false,
            AbductionResult::Satisfiable(refined1, refined2) => {
                if !self.refine_interval(op1, refined1) {
                    return false;
                }
                self.refine_interval(op2, refined2)
            },
        }
    }

    fn refine_interval(&mut self, op: &Operand, refined: Option<CItv>) -> (b: bool)
        requires
            refine_operand(old(self)@.phi, *op, refined) is Some,
        ensures
            refine_operand(old(self)@.phi, *op, refined) == Some((final(self)@.phi, b)),
            final(self)@.conditions == old(self)@.conditions,
    {
        match (refined, op) {
            (Some(better), Operand::AbstractValue(v)) => self.phi.add_interval(*v, better).is_sat(),
            _ => true,
        }
    }

    /// Add a prune constraint with a constant.
    ///
    /// A value that is the result of a comparison and is pruned against zero
    /// resolves back to the comparison.
    pub fn prune_eq_const(&mut self, v: AbstractValue, c: i64, negated: bool) -> (r: SatUnsat<
        Vec<NewEq>,
    >)
        requires
            prune_const(old(self)@, v, c, negated) is Some,
        ensures
            prune_const(old(self)@, v, c, negated) == Some((final(self)@, report(r))),
    {
        let comparison_condition_atom = self.comparison_behind(v, c, negated);
        let condition_atom = match &comparison_condition_atom {
            Some(atom) => atom.clone(),
            None => {
                let t = operand_to_term(&Operand::AbstractValue(v), &self.phi);
                if negated {
                    Atom::NotEqual(t, Term::Const(c))
                } else {
                    Atom::Equal(t, Term::Const(c))
                }
            },
        };
        let normalized_condition = self.normalize_condition_atom(&condition_atom);
        match comparison_condition_atom {
            Some(atom) => {
                if self.enforce_condition_atom(&atom).is_unsat() {
                    return SatUnsat::Unsat;
                }
            },
            None => {},
        }
        let result = if negated {
            self.and_not_equal(&Operand::AbstractValue(v), &Operand::ConstOperand(c))
        } else {
            self.phi.and_const_eq(v, c)
        };
        self.record_result(normalized_condition, 0, &result);
        result
    }

    /// The atom of the comparison whose result `v` is, true or false as the
    /// pruning against zero says. Direct lookup first, then under the
    /// canonical representative.
    fn comparison_behind(&self, v: AbstractValue, c: i64, negated: bool) -> (r: Option<Atom>)
        ensures
            r == formula_model::comparison_of(self@.phi, v, c, negated),
    {
        if c != 0 {
            return None;
        }
        let teq = match self.phi.term_eqs.get(&v) {
            Some(t) => Some(*t),
            None => {
                let repr_v = self.phi.get_repr(v);
                match self.phi.term_eqs.get(&repr_v) {
                    Some(t) => Some(*t),
                    None => None,
                }
            },
        };
        match teq {
            Some(t) => comparison_to_atom(t.op, &t.lhs, &t.rhs, !negated, &self.phi),
            None => None,
        }
    }

    /// Record that v = binop(x, y). An operation already evaluated on the same
    /// canonical operands gives its value again.
    pub fn and_equal_binop(&mut self, v: AbstractValue, op: Binop, x: &Operand, y: &Operand) -> (r:
        SatUnsat<Vec<NewEq>>)
        requires
            equal_binop(old(self)@.phi, v, op, *x, *y) is Some,
        ensures
            lifted(old(self)@, equal_binop(old(self)@.phi, v, op, *x, *y)) == Some(
                (final(self)@, report(r)),
            ),
    {
        match self.phi.find_term_value(&op, x, y) {
            Some(existing) => {
                if existing != v {
                    return self.phi.and_var_equal(v, existing);
                }
            },
            None => {},
        }
        if result_of_binop_is_integer(&op) {
            self.phi.mark_is_int(v);
        }
        let result = self.and_equal_binop_inner(v, op, x, y);
        self.phi.register_term_value(&op, x, y, v);
        result
    }

    fn and_equal_binop_inner(&mut self, v: AbstractValue, op: Binop, x: &Operand, y: &Operand) -> (r:
        SatUnsat<Vec<NewEq>>)
        requires
            equal_binop_inner(old(self)@.phi, v, op, *x, *y) is Some,
        ensures
            lifted(old(self)@, equal_binop_inner(old(self)@.phi, v, op, *x, *y)) == Some(
                (final(self)@, report(r)),
            ),
    {
        match op {
            Binop::PlusA(_) | Binop::PlusPI => {
                let lx = operand_to_lin(x, &self.phi);
                let ly = operand_to_lin(y, &self.phi);
                if !self.propagate_interval(v, &op, x, y) {
                    return SatUnsat::Unsat;
                }
                self.phi.and_linear_eq(v, lx.add(&ly))
            },
            Binop::MinusA(_) | Binop::MinusPI | Binop::MinusPP => {
                let lx = operand_to_lin(x, &self.phi);
                let ly = operand_to_lin(y, &self.phi);
                if !self.propagate_interval(v, &op, x, y) {
                    return SatUnsat::Unsat;
                }
                self.phi.and_linear_eq(v, lx.sub(&ly))
            },
            Binop::Eq | Binop::Ne | Binop::Lt | Binop::Gt | Binop::Le | Binop::Ge => {
                match (operand_const(x, &self.phi), operand_const(y, &self.phi)) {
                    (Some(cx), Some(cy)) => {
                        let holds = match op {
                            Binop::Eq => cx == cy,
                            Binop::Ne => cx != cy,
                            Binop::Lt => cx < cy,
                            Binop::Gt => cx > cy,
                            Binop::Le => cx <= cy,
                            _ => cx >= cy,
                        };
                        self.phi.and_const_eq(
                            v,
                            if holds {
                                1
                            } else {
                                0
                            },
                        )
                    },
                    _ => {
                        self.phi.term_eqs.insert(v, TermEq { op, lhs: *x, rhs: *y });
                        SatUnsat::Sat(Vec::new())
                    },
                }
            },
            Binop::DivF => {
                match (operand_q(x, &self.phi), operand_q(y, &self.phi)) {
                    (Some(qx), Some(qy)) => {
                        if !qy.is_zero() {
                            let result = qx.over(&qy);
                            return self.phi.and_linear_eq(v, LinArith::of_q(result));
                        }
                    },
                    _ => {},
                }
                SatUnsat::Sat(Vec::new())
            },
            Binop::Mult(_) | Binop::DivI | Binop::Mod | Binop::Shiftlt | Binop::Shiftrt => {
                match (operand_const(x, &self.phi), operand_const(y, &self.phi)) {
                    (Some(cx), Some(cy)) => match fold_integers(op, cx, cy) {
                        Some(c) => self.phi.and_const_eq(v, c),
                        None => SatUnsat::Sat(Vec::new()),
                    },
                    _ => SatUnsat::Sat(Vec::new()),
                }
            },
            Binop::BAnd | Binop::BOr | Binop::BXor => {
                match (operand_const(x, &self.phi), operand_const(y, &self.phi)) {
                    (Some(cx), Some(cy)) => {
                        let c: i64 = match op {
                            Binop::BAnd => cx & cy,
                            Binop::BOr => cx | cy,
                            _ => cx ^ cy,
                        };
                        self.phi.and_const_eq(v, c)
                    },
                    _ => SatUnsat::Sat(Vec::new()),
                }
            },
            _ => SatUnsat::Sat(Vec::new()),
        }
    }

    /// Records the range of a sum or difference, where both operands have one.
    fn propagate_interval(&mut self, v: AbstractValue, op: &Binop, x: &Operand, y: &Operand) -> (b:
        bool)
        requires
            formula_model::result_range(old(self)@.phi, v, *op, *x, *y) is Some,
        ensures
            formula_model::result_range(old(self)@.phi, v, *op, *x, *y) == Some(
                (final(self)@.phi, b),
            ),
            final(self)@.conditions == old(self)@.conditions,
    {
        match (operand_interval(x, &self.phi), operand_interval(y, &self.phi)) {
            (Some(ix), Some(iy)) => match CItv::binop(op, &ix, &iy) {
                Some(itv) => self.phi.add_interval(v, itv).is_sat(),
                None => true,
            },
            _ => true,
        }
    }

    /// Simplify the formula: forget what mentions unreachable values.
    pub fn simplify(&mut self, reachable: &ValueSet)
        ensures
            final(self)@ == formula_filtered(old(self)@, reachable@, true, false),
    {
        self.filter_conditions(reachable, true);
        self.phi.simplify(reachable);
    }

    /// Keeps the conditions whose values' representatives are all in the set,
    /// or all outside it.
    fn filter_conditions(&mut self, set: &ValueSet, inside: bool)
        ensures
            final(self)@.phi == old(self)@.phi,
            final(self)@.conditions == formula_model::conditions_filtered(
                old(self)@,
                set@,
                inside,
            ),
    {
        let filter = ConditionFilter { phi: &self.phi, set, inside };
        let ghost f = filter;
        self.conditions.retain(&filter);
        proof {
            assert((|e: (Atom, usize)| f.accepts(e.0, e.1)) =~= (|e: (Atom, usize)|
                solver::atom_passes(old(self)@.phi, set@, inside, e.0)));
        }
    }

    /// The conditions rewritten over visible values, with their depths: visible
    /// conditions keep their shape, and those that hold anyway are dropped.
    pub fn rewritten_conditions(&self, keep: &ValueSet) -> (r: Vec<(Atom, usize)>)
        requires
            rewritten_conditions(self@, keep@) is Some,
        ensures
            Some(r@) == rewritten_conditions(self@, keep@),
    {
        let mut rewritten: Vec<(Atom, usize)> = Vec::new();
        let ghost s = self@.conditions;
        let mut i: usize = 0;
        assert(s.skip(0) =~= s);
        while i < self.conditions.len()
            invariant
                i <= s.len(),
                s == self@.conditions,
                rewritten_conditions(self@, keep@) is Some,
                formula_model::rewrite_conditions(
                    self@.phi,
                    s.skip(i as int),
                    keep@,
                    rewritten@,
                ) == rewritten_conditions(self@, keep@),
            decreases s.len() - i,
        {
            proof {
                assert(s.skip(i as int)[0] == s[i as int]);
                assert(s.skip(i as int).drop_first() =~= s.skip(i + 1));
            }
            let depth: usize = *self.conditions.value_at(i);
            let atom = self.phi.simplify_condition_atom_for_summary(
                self.conditions.key_at(i),
                keep,
            );
            if !matches!(atom.is_trivially_true(), Some(true)) {
                rewritten.push((atom, depth));
            }
            i = i + 1;
        }
        rewritten
    }

    /// The comparisons that an exported formula is about: those between terms, then
    /// its conditions.
    pub fn summary_atoms(&self, conditions: &Vec<(Atom, usize)>) -> (r: Vec<Atom>)
        ensures
            r@ == self@.phi.atoms + conditions@.map_values(|e: (Atom, usize)| e.0),
    {
        let mut out: Vec<Atom> = Vec::new();
        let ghost s = self@.phi.atoms;
        let mut i: usize = 0;
        while i < self.phi.atoms.len()
            invariant
                i <= s.len(),
                s == self@.phi.atoms,
                out@ == s.take(i as int),
            decreases s.len() - i,
        {
            out.push(self.phi.atoms.at(i).clone());
            assert(s.take(i + 1) =~= s.take(i as int).push(s[i as int]));
            i = i + 1;
        }
        let ghost c = conditions@.map_values(|e: (Atom, usize)| e.0);
        let mut j: usize = 0;
        assert(s.take(i as int) =~= s);
        while j < conditions.len()
            invariant
                j <= c.len(),
                s == self@.phi.atoms,
                c == conditions@.map_values(|e: (Atom, usize)| e.0),
                out@ =~= s + c.take(j as int),
            decreases c.len() - j,
        {
            out.push(conditions[j].0.clone());
            assert(c.take(j + 1) =~= c.take(j as int).push(c[j as int]));
            j = j + 1;
        }
        assert(c.take(j as int) =~= c);
        out
    }

    /// Takes over those of the given conditions that mention no value outside the
    /// vocabulary, each with its smallest depth.
    pub fn keep_conditions(
        &mut self,
        conditions: Vec<(Atom, usize)>,
        precondition_vocabulary: &ValueSet,
    )
        ensures
            final(self)@ == (FormulaModel {
                conditions: kept_conditions(
                    old(self)@.phi,
                    conditions@,
                    precondition_vocabulary@,
                ),
                ..old(self)@
            }),
    {
        let vocabulary_reprs = self.representatives(precondition_vocabulary);
        let mut kept: OrdMap<Atom, usize> = OrdMap::new();
        let ghost s = conditions@;
        let mut i: usize = 0;
        assert(s.skip(0) =~= s);
        while i < conditions.len()
            invariant
                i <= s.len(),
                s == conditions@,
                self@ == old(self)@,
                vocabulary_reprs@ == formula_model::representatives(
                    self@.phi,
                    precondition_vocabulary@,
                ),
                formula_model::conditions_within(
                    self@.phi,
                    s.skip(i as int),
                    vocabulary_reprs@,
                    kept@,
                ) == kept_conditions(self@.phi, s, precondition_vocabulary@),
            decreases s.len() - i,
        {
            proof {
                assert(s.skip(i as int)[0] == s[i as int]);
                assert(s.skip(i as int).drop_first() =~= s.skip(i + 1));
            }
            let filter = ConditionFilter {
                phi: &self.phi,
                set: &vocabulary_reprs,
                inside: true,
            };
            let (atom, depth) = &conditions[i];
            if filter.atom(atom) {
                remember_condition(&mut kept, atom.clone(), *depth);
            }
            i = i + 1;
        }
        self.conditions = kept;
    }

    /// The representatives of the members of a set.
    fn representatives(&self, set: &ValueSet) -> (r: ValueSet)
        ensures
            r@ == formula_model::representatives(self@.phi, set@),
    {
        let mut out = ValueSet::new();
        let ghost s = set@;
        let mut i: usize = 0;
        assert(s.skip(0) =~= s);
        while i < set.len()
            invariant
                i <= s.len(),
                s == set@,
                formula_model::representatives_from(self@.phi, s.skip(i as int), out@)
                    == formula_model::representatives(self@.phi, set@),
            decreases s.len() - i,
        {
            proof {
                assert(s.skip(i as int)[0] == s[i as int]);
                assert(s.skip(i as int).drop_first() =~= s.skip(i + 1));
            }
            out.insert(self.phi.get_repr(*set.at(i)));
            i = i + 1;
        }
        out
    }

    /// Replaces the recorded conditions.
    pub fn replace_conditions(&mut self, conditions: OrdMap<Atom, usize>)
        ensures
            final(self)@ == (FormulaModel { conditions: conditions@, ..old(self)@ }),
    {
        self.conditions = conditions;
    }

    /// Forget constraints and conditions that mention the given values.
    pub fn forget_constraints_involving(&mut self, ignored: &ValueSet)
        ensures
            final(self)@ == formula_filtered(
                old(self)@,
                formula_model::representatives(old(self)@.phi, ignored@),
                false,
                false,
            ),
    {
        let ignored_reprs = self.representatives(ignored);
        self.filter_conditions(&ignored_reprs, false);
        self.phi.forget_constraints_involving(&ignored_reprs);
    }

    /// Forget constraints and conditions that mention the given values while
    /// preserving integer facts on those values.
    pub fn forget_non_type_constraints_involving(&mut self, ignored: &ValueSet)
        ensures
            final(self)@ == formula_filtered(
                old(self)@,
                formula_model::representatives(old(self)@.phi, ignored@),
                false,
                true,
            ),
    {
        let ignored_reprs = self.representatives(ignored);
        self.filter_conditions(&ignored_reprs, false);
        self.phi.forget_non_type_constraints_involving(&ignored_reprs);
    }

    /// Records the condition when the constraint is satisfiable.
    fn record_result(
        &mut self,
        condition: Option<Atom>,
        depth: usize,
        result: &SatUnsat<Vec<NewEq>>,
    )
        requires
            result is Sat ==> formula_model::conditions_with(
                old(self)@.conditions,
                condition,
                depth,
            ) is Some,
        ensures
            final(self)@.phi == old(self)@.phi,
            result is Unsat ==> final(self)@ == old(self)@,
            result is Sat ==> Some(final(self)@.conditions) == formula_model::conditions_with(
                old(self)@.conditions,
                condition,
                depth,
            ),
    {
        if result.is_sat() {
            match condition {
                Some(atom) => self.record_condition_if_meaningful(atom, depth),
                None => {},
            }
        }
    }

    fn record_condition_if_meaningful(&mut self, atom: Atom, depth: usize)
        requires
            atom_trivial(atom) is Some,
        ensures
            final(self)@.phi == old(self)@.phi,
            Some(final(self)@.conditions) == formula_model::conditions_with(
                old(self)@.conditions,
                Some(atom),
                depth,
            ),
    {
        match atom.is_trivially_true() {
            Some(true) => {},
            _ => remember_condition(&mut self.conditions, atom, depth),
        }
    }

    fn normalize_condition_atom(&self, atom: &Atom) -> (r: Option<Atom>)
        requires
            normalized(self@, *atom) is Some,
        ensures
            Some(r) == normalized(self@, *atom),
    {
        let normalized_atom = self.phi.normalize_condition_atom(atom);
        match normalized_atom.is_trivially_true() {
            Some(true) => None,
            _ => Some(normalized_atom),
        }
    }

    fn enforce_condition_atom(&mut self, atom: &Atom) -> (r: SatUnsat<Vec<NewEq>>)
        requires
            enforce(old(self)@, *atom) is Some,
        ensures
            enforce(old(self)@, *atom) == Some((final(self)@, report(r))),
    {
        match atom {
            Atom::Equal(Term::Var(v1), Term::Var(v2)) => self.phi.and_var_equal(*v1, *v2),
            Atom::Equal(Term::Var(v), Term::Const(c)) => self.phi.and_const_eq(*v, *c),
            Atom::Equal(Term::Const(c), Term::Var(v)) => self.phi.and_const_eq(*v, *c),
            Atom::LessEqual(lhs, rhs) => {
                match (simple_operand_of_term(lhs), simple_operand_of_term(rhs)) {
                    (Some(op1), Some(op2)) => {
                        if !self.check_citv_binop(&Binop::Le, &op1, &op2) {
                            return SatUnsat::Unsat;
                        }
                    },
                    _ => {},
                }
                self.phi.and_atom(atom.clone())
            },
            Atom::LessThan(lhs, rhs) => {
                match (simple_operand_of_term(lhs), simple_operand_of_term(rhs)) {
                    (Some(op1), Some(op2)) => {
                        if !self.check_citv_binop(&Binop::Lt, &op1, &op2) {
                            return SatUnsat::Unsat;
                        }
                    },
                    _ => {},
                }
                self.phi.and_atom(atom.clone())
            },
            _ => self.phi.and_atom(atom.clone()),
        }
    }
}

struct ConditionFilter<'a> {
    phi: &'a Phi,
    set: &'a ValueSet,
    inside: bool,
}

impl<'a> ConditionFilter<'a> {
    fn atom(&self, atom: &Atom) -> (b: bool)
        ensures
            b == solver::atom_passes(self.phi@, self.set@, self.inside, *atom),
    {
        let vs = atom.all_vars();
        let mut i: usize = 0;
        while i < vs.len()
            invariant
                i <= vs@.len(),
                forall|j: int|
                    0 <= j < i ==> solver::passes(
                        self.phi@,
                        self.set@,
                        self.inside,
                        #[trigger] vs@[j],
                    ),
                vs@ == term::term_vars(atom.lhs()) + term::term_vars(atom.rhs()),
            decreases vs@.len() - i,
        {
            let r = self.phi.get_repr(vs[i]);
            if self.set.contains(&r) != self.inside {
                assert(!solver::passes(self.phi@, self.set@, self.inside, vs@[i as int]));
                return false;
            }
            i = i + 1;
        }
        true
    }
}

impl<'a> Selector<Atom, usize> for ConditionFilter<'a> {
    closed spec fn accepts(&self, k: Atom, v: usize) -> bool {
        solver::atom_passes(self.phi@, self.set@, self.inside, k)
    }

    fn test(&self, k: &Atom, v: &usize) -> (b: bool) {
        self.atom(k)
    }
}

/// Remembers a condition at the smallest depth it was seen at.
fn remember_condition(conditions: &mut OrdMap<Atom, usize>, atom: Atom, depth: usize)
    ensures
        final(conditions)@ == formula_model::remembered(old(conditions)@, atom, depth),
{
    let depth: usize = match conditions.get(&atom) {
        Some(existing) => if *existing < depth {
            *existing
        } else {
            depth
        },
        None => depth,
    };
    conditions.insert(atom, depth);
}

/// Convert a comparison to an atom constraint.
/// If `negated`, produce the negation of the comparison.
fn comparison_to_atom(op: Binop, lhs: &Operand, rhs: &Operand, negated: bool, phi: &Phi) -> (r:
    Option<Atom>)
    ensures
        r == comparison_atom(phi@, op, *lhs, *rhs, negated),
{
    let effective_op = if negated {
        match op {
            Binop::Eq => Binop::Ne,
            Binop::Ne => Binop::Eq,
            Binop::Lt => Binop::Ge,
            Binop::Ge => Binop::Lt,
            Binop::Gt => Binop::Le,
            Binop::Le => Binop::Gt,
            _ => {
                return None;
            },
        }
    } else {
        op
    };
    let lt = operand_to_term(lhs, phi);
    let rt = operand_to_term(rhs, phi);
    match effective_op {
        Binop::Eq => Some(Atom::Equal(lt, rt)),
        Binop::Ne => Some(Atom::NotEqual(lt, rt)),
        Binop::Lt => Some(Atom::LessThan(lt, rt)),
        Binop::Le => Some(Atom::LessEqual(lt, rt)),
        Binop::Gt => Some(Atom::LessThan(rt, lt)),
        Binop::Ge => Some(Atom::LessEqual(rt, lt)),
        _ => None,
    }
}

fn result_of_binop_is_integer(op: &Binop) -> (b: bool)
    ensures
        b == is_comparison(*op),
{
    matches!(op, Binop::Eq | Binop::Ne | Binop::Lt | Binop::Gt | Binop::Le | Binop::Ge)
}

/// The constant that an integer operation gives; `None` where it has none.
fn fold_integers(op: Binop, cx: i64, cy: i64) -> (r: Option<i64>)
    requires
        fold_ints(op, cx, cy) is Some,
    ensures
        Some(r) == fold_ints(op, cx, cy),
{
    match op {
        Binop::Mult(_) => Some(cx * cy),
        Binop::DivI => if cy != 0 {
            Some(divide(cx, cy))
        } else {
            None
        },
        Binop::Mod => if cy != 0 {
            Some(remainder(cx, cy))
        } else {
            None
        },
        Binop::Shiftlt => if 0 <= cy && cy < 64 {
            Some(cx << cy)
        } else {
            None
        },
        Binop::Shiftrt => if 0 <= cy && cy < 64 {
            Some(cx >> cy)
        } else {
            None
        },
        _ => None,
    }
}

fn divide(a: i64, b: i64) -> (r: i64)
    requires
        b != 0,
        !(a == i64::MIN && b == -1),
    ensures
        r == formula_model::trunc_div(a as int, b as int),
{
    let q: u64 = magnitude(a) / magnitude(b);
    proof {
        let (x, y) = (magnitude_of(a), magnitude_of(b));
        assert(x / y <= x) by (nonlinear_arith)
            requires
                y >= 1,
                x >= 0,
        ;
        assert(y >= 2 && x > 0 ==> x / y < x) by (nonlinear_arith)
            requires
                y >= 1,
                x >= 0,
        ;
    }
    if (a < 0) == (b < 0) {
        q as i64
    } else {
        (-(q as i128)) as i64
    }
}

fn remainder(a: i64, b: i64) -> (r: i64)
    requires
        b != 0,
        !(a == i64::MIN && b == -1),
    ensures
        r == formula_model::trunc_rem(a as int, b as int),
{
    let r: u64 = magnitude(a) % magnitude(b);
    proof {
        let (x, y) = (magnitude_of(a), magnitude_of(b));
        vstd::arithmetic::div_mod::lemma_fundamental_div_mod(x, y);
        let q = x / y;
        assert((-y) * q == -(y * q) && (-y) * (-q) == y * q && y * (-q) == -(y * q))
            by (nonlinear_arith);
    }
    if a < 0 {
        (-(r as i128)) as i64
    } else {
        r as i64
    }
}

spec fn magnitude_of(a: i64) -> int {
    if a < 0 {
        -a
    } else {
        a as int
    }
}

fn magnitude(a: i64) -> (r: u64)
    ensures
        r == magnitude_of(a),
{
    if a < 0 {
        (-(a as i128)) as u64
    } else {
        a as u64
    }
}

fn simple_operand_of_term(term: &Term) -> (r: Option<Operand>)
    ensures
        r == simple_operand(*term),
{
    match term {
        Term::Var(v) => Some(Operand::AbstractValue(*v)),
        Term::Const(c) => Some(Operand::ConstOperand(*c)),
        _ => None,
    }
}

/// Get the known integer value of an operand, if any.
pub fn operand_const(op: &Operand, phi: &Phi) -> (r: Option<i64>)
    ensures
        r == operand_int(phi@, *op),
{
    match op {
        Operand::ConstOperand(c) => Some(*c),
        Operand::AbstractValue(v) => match phi.get_known_const(*v) {
            Some(q) => if q.is_integer() {
                Some(q.numer())
            } else {
                None
            },
            None => None,
        },
    }
}

/// Get the rational constant value of an operand, if known.
fn operand_q(op: &Operand, phi: &Phi) -> (r: Option<Q>)
    ensures
        r == operand_rational(phi@, *op),
{
    match op {
        Operand::ConstOperand(c) => Some(Q::from_integer(*c)),
        Operand::AbstractValue(v) => phi.get_known_const(*v),
    }
}

/// Get the interval for an operand.
fn operand_interval(op: &Operand, phi: &Phi) -> (r: Option<CItv>)
    ensures
        r == operand_itv(phi@, *op),
{
    match op {
        Operand::ConstOperand(c) => Some(CItv::equal_to(*c)),
        Operand::AbstractValue(v) => match phi.get_interval(*v) {
            Some(i) => Some(*i),
            None => None,
        },
    }
}

fn operand_to_term(op: &Operand, phi: &Phi) -> (r: Term)
    ensures
        r == operand_term(phi@, *op),
{
    match op {
        Operand::AbstractValue(v) => Term::Var(phi.get_repr(*v)),
        Operand::ConstOperand(c) => Term::Const(*c),
    }
}

fn operand_to_lin(op: &Operand, phi: &Phi) -> (r: LinArith)
    ensures
        r@ == operand_lin(phi@, *op),
{
    match op {
        Operand::AbstractValue(v) => LinArith::of_var(phi.get_repr(*v)),
        Operand::ConstOperand(c) => LinArith::of_int(*c),
    }
}

} // verus!
