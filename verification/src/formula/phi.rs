//! Core formula state: the constraint solver.
//!
//! Combines
//! - union-find for equality classes (`var_eqs`),
//! - linear equations `x = c + a1*y1 + a2*y2 + ...` (`linear_eqs`),
//! - comparisons between terms (`atoms`),
//! - integer ranges, integer-typed values, and results of comparisons, pure
//!   calls and binary operations.
//!
//! When a new equality is learned, it propagates through `linear_eqs` and
//! `atoms` to maintain consistency.

use super::Operand;
use super::atom::Atom;
use super::citv::CItv;
use super::lin_arith::{Lin, LinArith};
use super::resolve::ValueSet;
use super::solver::{
    actuals_pass, all_pass, app_actual, app_key, atom_passes, canonical_operand, contradicted,
    empty_phi, filtered, finish_propagate, integers_consistent, known_const, lin_term,
    lin_term_from, lin_vars, marked_int, mentioning, normalize, normalize_from, operand_passes,
    passes, room, run_add, run_atom, run_const_eq, run_fn_app, run_interval, run_linear_eq,
    run_propagate, run_updates, run_var_equal, substitute_atoms, substituted, term_key, term_plus,
    used_in_range, PhiModel,
};
use super::term::Term;
use super::var_uf::{repr, VarUF};
use crate::abstract_value::AbstractValue;
use crate::binop::{Binop, IntKind};
use crate::ordered::{
    compare_vecs, lemma_seq_lt_irreflexive, lemma_seq_lt_total, lemma_seq_lt_transitive, lookup,
    put, seq_lt, sorted, views, Comparison, Dup, ElementTest, OrdKey, OrdMap, OrdSet, Selector,
};
use crate::rational::Q;
use crate::sat_unsat::SatUnsat;
use vstd::prelude::*;

verus! {

/// A newly discovered equality from constraint propagation.
#[derive(Clone, Copy, Debug, PartialEq, Eq, Structural)]
pub enum NewEq {
    /// A variable is now known to equal zero.
    EqZero(AbstractValue),
    /// Two variables are now known to be equal.
    Equal(AbstractValue, AbstractValue),
}

/// A canonicalized actual argument for function application keys.
#[derive(Clone, Copy, Debug, PartialEq, Eq, Structural)]
pub enum FnAppActual {
    /// Known constant value.
    Const(i64),
    /// Unknown value identified by its canonical representative.
    Var(AbstractValue),
}

/// Key for function application deduplication: two calls with the same callee
/// and the same actual values return the same result.
#[derive(Debug, PartialEq, Eq)]
pub struct FnAppKey {
    pub callee: String,
    pub actuals: Vec<FnAppActual>,
}

/// The callee and actuals of a [`FnAppKey`].
#[verifier::ext_equal]
pub struct AppKey {
    pub callee: Seq<char>,
    pub actuals: Seq<FnAppActual>,
}

/// A term equality: records that a variable equals a binary operation on two
/// operands.
#[derive(Clone, Copy, Debug, PartialEq, Eq, Structural)]
pub struct TermEq {
    pub op: Binop,
    pub lhs: Operand,
    pub rhs: Operand,
}

/// A binary operation on canonical operands.
#[derive(Clone, Copy, Debug, PartialEq, Eq, Structural)]
pub struct TermKey {
    pub op: Binop,
    pub lhs: Operand,
    pub rhs: Operand,
}

impl View for FnAppActual {
    type V = FnAppActual;

    open spec fn view(&self) -> FnAppActual {
        *self
    }
}

impl Dup for FnAppActual {
    fn dup(&self) -> (r: Self) {
        *self
    }
}

impl OrdKey for FnAppActual {
    /// Constants first.
    open spec fn lt(a: FnAppActual, b: FnAppActual) -> bool {
        match (a, b) {
            (FnAppActual::Const(x), FnAppActual::Const(y)) => x < y,
            (FnAppActual::Const(_), FnAppActual::Var(_)) => true,
            (FnAppActual::Var(_), FnAppActual::Const(_)) => false,
            (FnAppActual::Var(x), FnAppActual::Var(y)) => x.0 < y.0,
        }
    }

    proof fn lt_irreflexive(a: FnAppActual) {
    }

    proof fn lt_transitive(a: FnAppActual, b: FnAppActual, c: FnAppActual) {
    }

    proof fn lt_total(a: FnAppActual, b: FnAppActual) {
    }

    fn compare(&self, other: &Self) -> (c: Comparison) {
        match (self, other) {
            (FnAppActual::Const(x), FnAppActual::Const(y)) => {
                if *x < *y {
                    Comparison::Less
                } else if *x == *y {
                    Comparison::Equal
                } else {
                    Comparison::Greater
                }
            },
            (FnAppActual::Const(_), FnAppActual::Var(_)) => Comparison::Less,
            (FnAppActual::Var(_), FnAppActual::Const(_)) => Comparison::Greater,
            (FnAppActual::Var(x), FnAppActual::Var(y)) => x.compare(y),
        }
    }
}

impl View for FnAppKey {
    type V = AppKey;

    open spec fn view(&self) -> AppKey {
        AppKey { callee: self.callee@, actuals: self.actuals@ }
    }
}

impl Dup for FnAppKey {
    fn dup(&self) -> (r: Self) {
        FnAppKey { callee: self.callee.clone(), actuals: self.actuals.clone() }
    }
}

impl Clone for FnAppKey {
    fn clone(&self) -> (r: Self)
        ensures
            r@ == self@,
    {
        self.dup()
    }
}

impl OrdKey for FnAppKey {
    /// By callee, then by the actuals from left to right.
    open spec fn lt(a: AppKey, b: AppKey) -> bool {
        seq_lt::<char>(a.callee, b.callee) || (a.callee == b.callee && seq_lt::<FnAppActual>(
            a.actuals,
            b.actuals,
        ))
    }

    proof fn lt_irreflexive(a: AppKey) {
        lemma_seq_lt_irreflexive::<char>(a.callee);
        lemma_seq_lt_irreflexive::<FnAppActual>(a.actuals);
    }

    proof fn lt_transitive(a: AppKey, b: AppKey, c: AppKey) {
        if seq_lt::<char>(a.callee, b.callee) && seq_lt::<char>(b.callee, c.callee) {
            lemma_seq_lt_transitive::<char>(a.callee, b.callee, c.callee);
        }
        if seq_lt::<FnAppActual>(a.actuals, b.actuals) && seq_lt::<FnAppActual>(
            b.actuals,
            c.actuals,
        ) {
            lemma_seq_lt_transitive::<FnAppActual>(a.actuals, b.actuals, c.actuals);
        }
    }

    proof fn lt_total(a: AppKey, b: AppKey) {
        lemma_seq_lt_total::<char>(a.callee, b.callee);
        lemma_seq_lt_total::<FnAppActual>(a.actuals, b.actuals);
    }

    fn compare(&self, other: &Self) -> (c: Comparison) {
        assert(views(self.actuals@) =~= self.actuals@);
        assert(views(other.actuals@) =~= other.actuals@);
        match self.callee.compare(&other.callee) {
            Comparison::Equal => compare_vecs(&self.actuals, &other.actuals),
            c => c,
        }
    }
}

impl View for TermEq {
    type V = TermEq;

    open spec fn view(&self) -> TermEq {
        *self
    }
}

impl Dup for TermEq {
    fn dup(&self) -> (r: Self) {
        *self
    }
}

impl View for TermKey {
    type V = TermKey;

    open spec fn view(&self) -> TermKey {
        *self
    }
}

impl Dup for TermKey {
    fn dup(&self) -> (r: Self) {
        *self
    }
}

pub open spec fn kind_code(k: Option<IntKind>) -> int {
    match k {
        None => 0,
        Some(IntKind::Char) => 1,
        Some(IntKind::Short) => 2,
        Some(IntKind::Int) => 3,
        Some(IntKind::Long) => 4,
        Some(IntKind::LongLong) => 5,
        Some(IntKind::UnsignedChar) => 6,
        Some(IntKind::UnsignedShort) => 7,
        Some(IntKind::UnsignedInt) => 8,
        Some(IntKind::UnsignedLong) => 9,
        Some(IntKind::UnsignedLongLong) => 10,
    }
}

/// A number for every operator.
pub open spec fn binop_code(op: Binop) -> int {
    match op {
        Binop::PlusA(k) => kind_code(k),
        Binop::MinusA(k) => 20 + kind_code(k),
        Binop::Mult(k) => 40 + kind_code(k),
        Binop::PlusPI => 60,
        Binop::MinusPI => 61,
        Binop::MinusPP => 62,
        Binop::DivI => 63,
        Binop::DivF => 64,
        Binop::Mod => 65,
        Binop::Shiftlt => 66,
        Binop::Shiftrt => 67,
        Binop::Lt => 68,
        Binop::Gt => 69,
        Binop::Le => 70,
        Binop::Ge => 71,
        Binop::Eq => 72,
        Binop::Ne => 73,
        Binop::BAnd => 74,
        Binop::BXor => 75,
        Binop::BOr => 76,
        Binop::LAnd => 77,
        Binop::LOr => 78,
    }
}

fn kind_number(k: Option<IntKind>) -> (r: i64)
    ensures
        r == kind_code(k),
{
    match k {
        None => 0,
        Some(IntKind::Char) => 1,
        Some(IntKind::Short) => 2,
        Some(IntKind::Int) => 3,
        Some(IntKind::Long) => 4,
        Some(IntKind::LongLong) => 5,
        Some(IntKind::UnsignedChar) => 6,
        Some(IntKind::UnsignedShort) => 7,
        Some(IntKind::UnsignedInt) => 8,
        Some(IntKind::UnsignedLong) => 9,
        Some(IntKind::UnsignedLongLong) => 10,
    }
}

fn binop_number(op: Binop) -> (r: i64)
    ensures
        r == binop_code(op),
{
    match op {
        Binop::PlusA(k) => kind_number(k),
        Binop::MinusA(k) => 20 + kind_number(k),
        Binop::Mult(k) => 40 + kind_number(k),
        Binop::PlusPI => 60,
        Binop::MinusPI => 61,
        Binop::MinusPP => 62,
        Binop::DivI => 63,
        Binop::DivF => 64,
        Binop::Mod => 65,
        Binop::Shiftlt => 66,
        Binop::Shiftrt => 67,
        Binop::Lt => 68,
        Binop::Gt => 69,
        Binop::Le => 70,
        Binop::Ge => 71,
        Binop::Eq => 72,
        Binop::Ne => 73,
        Binop::BAnd => 74,
        Binop::BXor => 75,
        Binop::BOr => 76,
        Binop::LAnd => 77,
        Binop::LOr => 78,
    }
}

proof fn lemma_binop_code(a: Binop, b: Binop)
    ensures
        binop_code(a) == binop_code(b) ==> a == b,
{
}

/// The position of the variant and its number.
pub open spec fn operand_lt(a: Operand, b: Operand) -> bool {
    match (a, b) {
        (Operand::AbstractValue(x), Operand::AbstractValue(y)) => x.0 < y.0,
        (Operand::AbstractValue(_), Operand::ConstOperand(_)) => true,
        (Operand::ConstOperand(_), Operand::AbstractValue(_)) => false,
        (Operand::ConstOperand(x), Operand::ConstOperand(y)) => x < y,
    }
}

fn compare_operands(a: Operand, b: Operand) -> (c: Comparison)
    ensures
        match c {
            Comparison::Less => operand_lt(a, b),
            Comparison::Equal => a == b,
            Comparison::Greater => operand_lt(b, a),
        },
{
    match (a, b) {
        (Operand::AbstractValue(x), Operand::AbstractValue(y)) => x.compare(&y),
        (Operand::AbstractValue(_), Operand::ConstOperand(_)) => Comparison::Less,
        (Operand::ConstOperand(_), Operand::AbstractValue(_)) => Comparison::Greater,
        (Operand::ConstOperand(x), Operand::ConstOperand(y)) => {
            if x < y {
                Comparison::Less
            } else if x == y {
                Comparison::Equal
            } else {
                Comparison::Greater
            }
        },
    }
}

impl OrdKey for TermKey {
    open spec fn lt(a: TermKey, b: TermKey) -> bool {
        binop_code(a.op) < binop_code(b.op) || (a.op == b.op && (operand_lt(a.lhs, b.lhs) || (a.lhs
            == b.lhs && operand_lt(a.rhs, b.rhs))))
    }

    proof fn lt_irreflexive(a: TermKey) {
    }

    proof fn lt_transitive(a: TermKey, b: TermKey, c: TermKey) {
    }

    proof fn lt_total(a: TermKey, b: TermKey) {
        lemma_binop_code(a.op, b.op);
    }

    fn compare(&self, other: &Self) -> (c: Comparison) {
        let x: i64 = binop_number(self.op);
        let y: i64 = binop_number(other.op);
        if x < y {
            return Comparison::Less;
        }
        if x > y {
            return Comparison::Greater;
        }
        proof {
            lemma_binop_code(self.op, other.op);
        }
        match compare_operands(self.lhs, other.lhs) {
            Comparison::Equal => compare_operands(self.rhs, other.rhs),
            c => c,
        }
    }
}

/// The core formula state.
#[derive(Debug, PartialEq, Eq)]
pub struct Phi {
    /// Union-find for variable equality classes.
    pub var_eqs: VarUF,
    /// Linear equations: `x = linear_expr` where x is the simplest variable.
    /// Invariant: domain and range mention distinct variables.
    pub linear_eqs: OrdMap<AbstractValue, LinArith>,
    /// Atom constraints (disequalities, inequalities).
    pub atoms: OrdSet<Atom>,
    /// Term equalities: `v = binop(x, y)`. Used by prune to resolve boolean
    /// variables back to their defining comparison.
    pub term_eqs: OrdMap<AbstractValue, TermEq>,
    /// Concrete integer intervals.
    pub intervals: OrdMap<AbstractValue, CItv>,
    /// Variables known to be integers. When a variable in this set gets a
    /// non-integer rational solution from the linear solver, the path is
    /// Unsat.
    pub is_int_vars: OrdSet<AbstractValue>,
    /// Function application equalities: maps (callee, actuals) to the return
    /// value, so that a second call of a pure function with the same arguments
    /// returns the same value.
    pub fn_app_eqs: OrdMap<FnAppKey, AbstractValue>,
    /// The value of each binary operation already evaluated.
    pub term_values: OrdMap<TermKey, AbstractValue>,
}

impl View for Phi {
    type V = PhiModel;

    open spec fn view(&self) -> PhiModel {
        PhiModel {
            eqs: self.var_eqs@,
            lin: self.linear_eqs@,
            atoms: self.atoms@,
            terms: self.term_eqs@,
            itvs: self.intervals@,
            ints: self.is_int_vars@,
            apps: self.fn_app_eqs@,
            values: self.term_values@,
        }
    }
}

impl Clone for Phi {
    fn clone(&self) -> (r: Self)
        ensures
            r@ == self@,
    {
        Phi {
            var_eqs: self.var_eqs.clone(),
            linear_eqs: self.linear_eqs.dup(),
            atoms: self.atoms.dup(),
            term_eqs: self.term_eqs.dup(),
            intervals: self.intervals.dup(),
            is_int_vars: self.is_int_vars.dup(),
            fn_app_eqs: self.fn_app_eqs.dup(),
            term_values: self.term_values.dup(),
        }
    }
}

/// What an operation reports.
pub open spec fn report(r: SatUnsat<Vec<NewEq>>) -> SatUnsat<Seq<NewEq>> {
    match r {
        SatUnsat::Sat(v) => SatUnsat::Sat(v@),
        SatUnsat::Unsat => SatUnsat::Unsat,
    }
}

/// Whether one of the equations has `x` on its right-hand side.
pub fn is_used_in_range(eqs: &OrdMap<AbstractValue, LinArith>, x: AbstractValue) -> (b: bool)
    ensures
        b == used_in_range(eqs@, x),
{
    let mut i: usize = 0;
    while i < eqs.len()
        invariant
            i <= eqs@.len(),
            forall|j: int| 0 <= j < i ==> lookup((#[trigger] eqs@[j]).1.vars, x) is None,
        decreases eqs@.len() - i,
    {
        if eqs.value_at(i).vars.contains_key(&x) {
            assert(lookup(eqs@[i as int].1.vars, x) is Some);
            return true;
        }
        i = i + 1;
    }
    false
}

/// The variables whose equations have `x` on their right-hand side.
fn keys_mentioning(eqs: &OrdMap<AbstractValue, LinArith>, x: AbstractValue) -> (r: Vec<
    AbstractValue,
>)
    ensures
        r@ == mentioning(eqs@, x, Seq::empty()),
{
    let mut out: Vec<AbstractValue> = Vec::new();
    let ghost s = eqs@;
    let mut i: usize = 0;
    assert(s.skip(0) =~= s);
    while i < eqs.len()
        invariant
            i <= s.len(),
            s == eqs@,
            mentioning(s.skip(i as int), x, out@) == mentioning(s, x, Seq::empty()),
        decreases s.len() - i,
    {
        proof {
            assert(s.skip(i as int)[0] == s[i as int]);
            assert(s.skip(i as int).drop_first() =~= s.skip(i + 1));
        }
        if eqs.value_at(i).vars.contains_key(&x) {
            out.push(*eqs.key_at(i));
        }
        i = i + 1;
    }
    out
}

fn append_eqs(to: &mut Vec<NewEq>, more: Vec<NewEq>)
    ensures
        final(to)@ == old(to)@ + more@,
{
    let mut more = more;
    to.append(&mut more);
}

impl Phi {
    pub fn ttrue() -> (r: Self)
        ensures
            r@ == empty_phi(),
    {
        Phi {
            var_eqs: VarUF::new(),
            linear_eqs: OrdMap::new(),
            atoms: OrdSet::new(),
            term_eqs: OrdMap::new(),
            intervals: OrdMap::new(),
            is_int_vars: OrdSet::new(),
            fn_app_eqs: OrdMap::new(),
            term_values: OrdMap::new(),
        }
    }

    /// Get the canonical representative of a variable.
    pub fn get_repr(&self, v: AbstractValue) -> (r: AbstractValue)
        ensures
            r == repr(self@.eqs, v),
    {
        self.var_eqs.find_immut(v)
    }

    /// Check if a variable is known to equal zero.
    pub fn is_known_zero(&self, v: AbstractValue) -> (b: bool)
        ensures
            b == (known_const(self@, v) matches Some(q) && q.numer == 0),
    {
        match self.get_known_const(v) {
            Some(q) => q.is_zero(),
            None => false,
        }
    }

    /// Get the known constant value of a variable, if any.
    pub fn get_known_const(&self, v: AbstractValue) -> (r: Option<Q>)
        ensures
            r == known_const(self@, v),
    {
        let repr_v = self.get_repr(v);
        match self.linear_eqs.get(&repr_v) {
            Some(lin) => lin.get_as_const(),
            None => None,
        }
    }

    /// Record that two variables are equal: v1 = v2.
    pub fn and_var_equal(&mut self, v1: AbstractValue, v2: AbstractValue) -> (r: SatUnsat<
        Vec<NewEq>,
    >)
        requires
            run_var_equal(old(self)@, v1, v2) is Some,
        ensures
            run_var_equal(old(self)@, v1, v2) == Some((final(self)@, report(r))),
    {
        match self.var_eqs.union(v1, v2) {
            None => SatUnsat::Sat(Vec::new()),
            Some((merged, kept)) => {
                let mut new_eqs: Vec<NewEq> = Vec::new();
                new_eqs.push(NewEq::Equal(merged, kept));
                assert(new_eqs@ =~= seq![NewEq::Equal(merged, kept)]);
                self.propagate_equality(merged, kept, new_eqs)
            },
        }
    }

    /// Record that a variable equals a linear expression: v = lin.
    pub fn and_linear_eq(&mut self, v: AbstractValue, lin: LinArith) -> (r: SatUnsat<Vec<NewEq>>)
        requires
            run_linear_eq(old(self)@, v, lin@) is Some,
        ensures
            run_linear_eq(old(self)@, v, lin@) == Some((final(self)@, report(r))),
    {
        self.add_linear_eq(v, lin)
    }

    /// Add a linear equation `x = solution` to the solver.
    ///
    /// A solution that stands for a variable merges the two classes. Otherwise an
    /// equation that x already has is solved together with the new one. Both sides
    /// are normalized first so that known constants show, and so that what is
    /// recorded mentions no variable that has an equation.
    pub fn add_linear_eq(&mut self, x: AbstractValue, solution: LinArith) -> (r: SatUnsat<
        Vec<NewEq>,
    >)
        requires
            run_linear_eq(old(self)@, x, solution@) is Some,
        ensures
            run_linear_eq(old(self)@, x, solution@) == Some((final(self)@, report(r))),
        decreases room(old(self)@), 2int, 0int,
    {
        let of_solution = self.normalize_linear(&solution);
        if of_solution.get_as_var().is_some() {
            return self.record_solved(x, of_solution);
        }
        let of_x = self.normalize_linear(&LinArith::of_var(x));
        let diff = of_x.sub(&of_solution);
        match diff.solve_eq_zero() {
            SatUnsat::Unsat => SatUnsat::Unsat,
            SatUnsat::Sat(None) => {
                let mut known: Vec<NewEq> = Vec::new();
                if let Some(q) = of_solution.get_as_const() {
                    if q.is_zero() {
                        known.push(NewEq::EqZero(self.get_repr(x)));
                    }
                }
                SatUnsat::Sat(known)
            },
            SatUnsat::Sat(Some((y, solved))) => self.record_solved(y, solved),
        }
    }

    /// Records an equation `x = solution`: an equality with another variable, or an
    /// equation between variables that have none.
    fn record_solved(&mut self, x: AbstractValue, solution: LinArith) -> (r: SatUnsat<Vec<NewEq>>)
        requires
            run_add(old(self)@, x, solution@) is Some,
        ensures
            run_add(old(self)@, x, solution@) == Some((final(self)@, report(r))),
        decreases room(old(self)@), 1int, 0int,
    {
        let ghost m = self@;
        let mut new_eqs: Vec<NewEq> = Vec::new();
        match solution.get_as_const() {
            Some(q) => {
                if q.is_zero() {
                    new_eqs.push(NewEq::EqZero(x));
                }
                if !q.is_integer() && self.is_marked_int(x) {
                    return SatUnsat::Unsat;
                }
            },
            None => {},
        }
        match solution.get_as_var() {
            Some(y) => {
                return match self.var_eqs.union(x, y) {
                    None => SatUnsat::Sat(new_eqs),
                    Some((merged, kept)) => {
                        let mut first: Vec<NewEq> = Vec::new();
                        first.push(NewEq::Equal(merged, kept));
                        assert(first@ =~= seq![NewEq::Equal(merged, kept)]);
                        match self.propagate_equality(merged, kept, first) {
                            SatUnsat::Unsat => SatUnsat::Unsat,
                            SatUnsat::Sat(eqs) => {
                                append_eqs(&mut new_eqs, eqs);
                                SatUnsat::Sat(new_eqs)
                            },
                        }
                    },
                };
            },
            None => {},
        }
        // Substitute x in all existing equations, then take up the constants and
        // equalities that this exposes.
        let changed = keys_mentioning(&self.linear_eqs, x);
        self.substitute_in_equations(x, &solution);
        let replacement = lin_to_term(&solution);
        self.linear_eqs.insert(x, solution);
        let new_eqs = match self.record_updates(Ghost(room(m)), &changed, new_eqs) {
            SatUnsat::Unsat => {
                return SatUnsat::Unsat;
            },
            SatUnsat::Sat(eqs) => eqs,
        };
        if !self.replace_in_atoms(x, &replacement) {
            return SatUnsat::Unsat;
        }
        SatUnsat::Sat(new_eqs)
    }

    /// Takes up what a substitution made of the equations of the given variables.
    fn record_updates(
        &mut self,
        r: Ghost<int>,
        keys: &Vec<AbstractValue>,
        eqs: Vec<NewEq>,
    ) -> (res: SatUnsat<Vec<NewEq>>)
        requires
            run_updates(r@, old(self)@, keys@, eqs@) is Some,
        ensures
            run_updates(r@, old(self)@, keys@, eqs@) == Some((final(self)@, report(res))),
        decreases r@, 0int, keys@.len(),
    {
        let ghost s = keys@;
        let mut new_eqs = eqs;
        let mut i: usize = 0;
        assert(s.skip(0) =~= s);
        while i < keys.len()
            invariant
                i <= keys@.len(),
                s == keys@,
                run_updates(r@, self@, s.skip(i as int), new_eqs@) is Some,
                run_updates(r@, self@, s.skip(i as int), new_eqs@) == run_updates(
                    r@,
                    old(self)@,
                    s,
                    eqs@,
                ),
            decreases keys@.len() - i,
        {
            let v = keys[i];
            proof {
                assert(s.skip(i as int)[0] == v);
                assert(s.skip(i as int).drop_first() =~= s.skip(i + 1));
            }
            let equation = match self.linear_eqs.get(&v) {
                Some(lin) => Some(lin.dup()),
                None => None,
            };
            if let Some(lin) = equation {
                match lin.get_as_const() {
                    Some(q) => {
                        if q.is_zero() {
                            new_eqs.push(NewEq::EqZero(v));
                        }
                        if !q.is_integer() && self.is_marked_int(v) {
                            return SatUnsat::Unsat;
                        }
                    },
                    None => {},
                }
                match lin.get_as_var() {
                    Some(y) => {
                        self.linear_eqs.remove(&v);
                        if let Some((merged, kept)) = self.var_eqs.union(v, y) {
                            let mut first: Vec<NewEq> = Vec::new();
                            first.push(NewEq::Equal(merged, kept));
                            assert(first@ =~= seq![NewEq::Equal(merged, kept)]);
                            match self.propagate_equality(merged, kept, first) {
                                SatUnsat::Unsat => {
                                    return SatUnsat::Unsat;
                                },
                                SatUnsat::Sat(more) => append_eqs(&mut new_eqs, more),
                            }
                        }
                    },
                    None => {
                        if !self.replace_in_atoms(v, &lin_to_term(&lin)) {
                            return SatUnsat::Unsat;
                        }
                    },
                }
            }
            i = i + 1;
        }
        SatUnsat::Sat(new_eqs)
    }

    /// Substitutes `replacement` for `x` in every equation.
    fn substitute_in_equations(&mut self, x: AbstractValue, replacement: &LinArith)
        requires
            substituted(old(self)@.lin, x, replacement@, Seq::empty()) is Some,
        ensures
            Some(final(self)@.lin) == substituted(
                old(self)@.lin,
                x,
                replacement@,
                Seq::empty(),
            ),
            final(self)@ == (PhiModel { lin: final(self)@.lin, ..old(self)@ }),
    {
        let mut out: OrdMap<AbstractValue, LinArith> = OrdMap::new();
        let n: usize = self.linear_eqs.len();
        let mut i: usize = 0;
        let ghost s = self@.lin;
        assert(s.skip(0) =~= s);
        while i < n
            invariant
                i <= n,
                n == s.len(),
                self@ == old(self)@,
                s == self@.lin,
                sorted::<AbstractValue, Lin>(s),
                out@.len() == i,
                forall|j: int| 0 <= j < i ==> (#[trigger] out@[j]).0 == s[j].0,
                substituted(s.skip(i as int), x, replacement@, out@) is Some,
                substituted(s.skip(i as int), x, replacement@, out@) == substituted(
                    s,
                    x,
                    replacement@,
                    Seq::empty(),
                ),
            decreases n - i,
        {
            proof {
                assert(s.skip(i as int)[0] == s[i as int]);
                assert(s.skip(i as int).drop_first() =~= s.skip(i + 1));
                if i > 0 {
                    assert(out@[i - 1].0 == s[i - 1].0);
                    assert(<AbstractValue as OrdKey>::lt(s[i - 1].0, s[i as int].0));
                }
            }
            let lin = self.linear_eqs.value_at(i).subst_var(x, replacement);
            out.push_last(*self.linear_eqs.key_at(i), lin);
            i = i + 1;
        }
        assert(s.skip(n as int) =~= Seq::empty());
        self.linear_eqs = out;
    }

    /// Substitutes `t` for `x` in all atoms and drops those that become
    /// trivially true; `false` when one becomes trivially false.
    fn replace_in_atoms(&mut self, x: AbstractValue, t: &Term) -> (b: bool)
        requires
            substitute_atoms(old(self)@.atoms, x, *t, Seq::empty()) is Some,
        ensures
            substitute_atoms(old(self)@.atoms, x, *t, Seq::empty()) == Some(
                (final(self)@.atoms, b),
            ),
            final(self)@ == (PhiModel { atoms: final(self)@.atoms, ..old(self)@ }),
    {
        let mut old_atoms: OrdSet<Atom> = OrdSet::new();
        std::mem::swap(&mut old_atoms, &mut self.atoms);
        let ghost s = old_atoms@;
        let mut i: usize = 0;
        assert(s.skip(0) =~= s);
        while i < old_atoms.len()
            invariant
                i <= s.len(),
                s == old_atoms@,
                s == old(self)@.atoms,
                substitute_atoms(s.skip(i as int), x, *t, self@.atoms) is Some,
                substitute_atoms(s.skip(i as int), x, *t, self@.atoms) == substitute_atoms(
                    s,
                    x,
                    *t,
                    Seq::empty(),
                ),
                self@ == (PhiModel { atoms: self@.atoms, ..old(self)@ }),
            decreases s.len() - i,
        {
            proof {
                assert(s.skip(i as int)[0] == s[i as int]);
                assert(s.skip(i as int).drop_first() =~= s.skip(i + 1));
            }
            let subst = old_atoms.at(i).subst_var(x, t);
            match subst.is_trivially_true() {
                Some(false) => {
                    return false;
                },
                Some(true) => {},
                None => {
                    self.atoms.insert(subst);
                },
            }
            i = i + 1;
        }
        true
    }

    /// Propagate an equality `merged = kept` through linear_eqs and atoms.
    fn propagate_equality(
        &mut self,
        merged: AbstractValue,
        kept: AbstractValue,
        new_eqs: Vec<NewEq>,
    ) -> (r: SatUnsat<Vec<NewEq>>)
        requires
            run_propagate(old(self)@, merged, kept, new_eqs@) is Some,
        ensures
            run_propagate(old(self)@, merged, kept, new_eqs@) == Some((final(self)@, report(r))),
        decreases room(old(self)@), 3int, 0int,
    {
        let ghost m = self@;
        let mut new_eqs = new_eqs;
        let taken = if self.linear_eqs.contains_key(&merged) {
            self.linear_eqs.remove(&merged)
        } else if self.linear_eqs.contains_key(&kept) && is_used_in_range(
            &self.linear_eqs,
            merged,
        ) {
            self.linear_eqs.remove(&kept)
        } else {
            None
        };
        let changed = keys_mentioning(&self.linear_eqs, merged);
        self.substitute_in_equations(merged, &LinArith::of_var(kept));
        if let Some(lin) = taken {
            match self.add_linear_eq(kept, lin) {
                SatUnsat::Unsat => {
                    return SatUnsat::Unsat;
                },
                SatUnsat::Sat(eqs) => append_eqs(&mut new_eqs, eqs),
            }
        }
        let new_eqs = match self.record_updates(Ghost(room(m)), &changed, new_eqs) {
            SatUnsat::Unsat => {
                return SatUnsat::Unsat;
            },
            SatUnsat::Sat(eqs) => eqs,
        };
        self.finish_propagation(merged, kept, new_eqs)
    }

    /// The last steps of a propagation: integers, atoms, and whether the
    /// merged class is zero.
    fn finish_propagation(
        &mut self,
        merged: AbstractValue,
        kept: AbstractValue,
        new_eqs: Vec<NewEq>,
    ) -> (r: SatUnsat<Vec<NewEq>>)
        requires
            finish_propagate(old(self)@, merged, kept, new_eqs@) is Some,
        ensures
            finish_propagate(old(self)@, merged, kept, new_eqs@) == Some(
                (final(self)@, report(r)),
            ),
    {
        let mut new_eqs = new_eqs;
        let ghost m3 = self@;
        if !self.integers_are_consistent() {
            return SatUnsat::Unsat;
        }
        let term_replacement = Term::Var(kept);
        if !self.replace_in_atoms(merged, &term_replacement) {
            return SatUnsat::Unsat;
        }
        assert(known_const(self@, kept) == known_const(m3, kept));
        match self.get_known_const(kept) {
            Some(q) => {
                if q.is_zero() {
                    new_eqs.push(NewEq::EqZero(kept));
                }
            },
            None => {},
        }
        SatUnsat::Sat(new_eqs)
    }

    /// Whether no integer-typed variable has a non-integer constant.
    fn integers_are_consistent(&self) -> (b: bool)
        requires
            integers_consistent(self@, self@.ints) is Some,
        ensures
            Some(b) == integers_consistent(self@, self@.ints),
    {
        let ghost s = self@.ints;
        let mut i: usize = 0;
        assert(s.skip(0) =~= s);
        while i < self.is_int_vars.len()
            invariant
                i <= s.len(),
                s == self@.ints,
                integers_consistent(self@, s.skip(i as int)) is Some,
                integers_consistent(self@, s.skip(i as int)) == integers_consistent(self@, s),
            decreases s.len() - i,
        {
            proof {
                assert(s.skip(i as int)[0] == s[i as int]);
                assert(s.skip(i as int).drop_first() =~= s.skip(i + 1));
            }
            let repr_v = self.get_repr(*self.is_int_vars.at(i));
            match self.linear_eqs.get(&repr_v) {
                Some(lin) => {
                    let normalized = self.normalize_linear(lin);
                    match normalized.get_as_const() {
                        Some(q) => {
                            if !q.is_integer() {
                                return false;
                            }
                        },
                        None => {},
                    }
                },
                None => {},
            }
            i = i + 1;
        }
        true
    }

    /// Normalize a linear expression by replacing variables with their
    /// canonical representatives and substituting known linear equations.
    fn normalize_linear(&self, lin: &LinArith) -> (r: LinArith)
        requires
            normalize(self@, lin@) is Some,
        ensures
            Some(r@) == normalize(self@, lin@),
    {
        let mut result = LinArith::of_q(lin.constant);
        let ghost s = lin@.vars;
        let mut i: usize = 0;
        assert(s.skip(0) =~= s);
        while i < lin.vars.len()
            invariant
                i <= s.len(),
                s == lin@.vars,
                normalize_from(self@, result@, s.skip(i as int)) is Some,
                normalize_from(self@, result@, s.skip(i as int)) == normalize(self@, lin@),
            decreases s.len() - i,
        {
            proof {
                assert(s.skip(i as int)[0] == s[i as int]);
                assert(s.skip(i as int).drop_first() =~= s.skip(i + 1));
            }
            let repr_v = self.get_repr(*lin.vars.key_at(i));
            let coeff = *lin.vars.value_at(i);
            let term = match self.linear_eqs.get(&repr_v) {
                Some(eq) => eq.mult_scalar(&coeff),
                None => LinArith::of_var(repr_v).mult_scalar(&coeff),
            };
            result = result.add(&term);
            i = i + 1;
        }
        result
    }

    /// Record that a variable equals a constant.
    pub fn and_const_eq(&mut self, v: AbstractValue, c: i64) -> (r: SatUnsat<Vec<NewEq>>)
        requires
            run_const_eq(old(self)@, v, c) is Some,
        ensures
            run_const_eq(old(self)@, v, c) == Some((final(self)@, report(r))),
    {
        let repr_v = self.get_repr(v);
        if self.add_interval(repr_v, CItv::equal_to(c)).is_unsat() {
            return SatUnsat::Unsat;
        }
        self.and_linear_eq(v, LinArith::of_int(c))
    }

    /// Add or intersect an interval for a variable.
    ///
    /// Returns Unsat if the intersection with existing interval is empty.
    pub fn add_interval(&mut self, v: AbstractValue, citv: CItv) -> (r: SatUnsat<()>)
        requires
            run_interval(old(self)@, v, citv) is Some,
        ensures
            run_interval(old(self)@, v, citv) == Some((final(self)@, r is Sat)),
    {
        let repr_v = self.get_repr(v);
        let refined = match self.intervals.get(&repr_v) {
            Some(existing) => match existing.intersection(&citv) {
                None => {
                    return SatUnsat::Unsat;
                },
                Some(better) => better,
            },
            None => citv,
        };
        self.intervals.insert(repr_v, refined);
        match refined.to_singleton() {
            Some(c) => {
                let known = match self.get_known_const(repr_v) {
                    Some(q) => q == Q::from_integer(c),
                    None => false,
                };
                if !known && self.and_linear_eq(repr_v, LinArith::of_int(c)).is_unsat() {
                    return SatUnsat::Unsat;
                }
            },
            None => {},
        }
        SatUnsat::Sat(())
    }

    /// Get the interval for a variable, if any.
    pub fn get_interval(&self, v: AbstractValue) -> (r: Option<&CItv>)
        ensures
            r is Some <==> lookup(self@.itvs, repr(self@.eqs, v)) is Some,
            r is Some ==> lookup(self@.itvs, repr(self@.eqs, v)) == Some(*r->0),
    {
        let repr_v = self.get_repr(v);
        self.intervals.get(&repr_v)
    }

    /// Check if a variable is known to be integer-typed.
    pub fn is_marked_int(&self, v: AbstractValue) -> (b: bool)
        ensures
            b == self@.ints.contains(repr(self@.eqs, v)),
    {
        let repr_v = self.get_repr(v);
        self.is_int_vars.contains(&repr_v)
    }
}

/// The facts to keep: those whose values' representatives are all in the set,
/// or all outside it.
struct FactFilter<'a> {
    var_eqs: &'a VarUF,
    set: &'a ValueSet,
    inside: bool,
}

impl<'a> FactFilter<'a> {
    spec fn phi(&self) -> PhiModel {
        PhiModel { eqs: self.var_eqs@, ..empty_phi() }
    }

    fn value(&self, v: AbstractValue) -> (b: bool)
        ensures
            b == passes(self.phi(), self.set@, self.inside, v),
    {
        let r = self.var_eqs.find_immut(v);
        self.set.contains(&r) == self.inside
    }

    fn values(&self, vs: &Vec<AbstractValue>) -> (b: bool)
        ensures
            b == all_pass(self.phi(), self.set@, self.inside, vs@),
    {
        let mut i: usize = 0;
        while i < vs.len()
            invariant
                i <= vs@.len(),
                forall|j: int|
                    0 <= j < i ==> passes(self.phi(), self.set@, self.inside, #[trigger] vs@[j]),
            decreases vs@.len() - i,
        {
            if !self.value(vs[i]) {
                assert(!passes(self.phi(), self.set@, self.inside, vs@[i as int]));
                return false;
            }
            i = i + 1;
        }
        true
    }

    fn operand(&self, o: &Operand) -> (b: bool)
        ensures
            b == operand_passes(self.phi(), self.set@, self.inside, *o),
    {
        match o {
            Operand::AbstractValue(v) => self.value(*v),
            Operand::ConstOperand(_) => true,
        }
    }
}

/// The tests read only the equality classes of a state.
proof fn lemma_filter_phi(m: PhiModel, n: PhiModel, set: Seq<AbstractValue>, inside: bool)
    requires
        m.eqs == n.eqs,
    ensures
        forall|v: AbstractValue| passes(m, set, inside, v) == passes(n, set, inside, v),
        forall|s: Seq<AbstractValue>| all_pass(m, set, inside, s) == all_pass(n, set, inside, s),
        forall|a: Atom| atom_passes(m, set, inside, a) == atom_passes(n, set, inside, a),
        forall|o: Operand| operand_passes(m, set, inside, o) == operand_passes(n, set, inside, o),
        forall|s: Seq<FnAppActual>|
            actuals_pass(m, set, inside, s) == actuals_pass(n, set, inside, s),
{
    assert forall|s: Seq<AbstractValue>|
        all_pass(m, set, inside, s) == all_pass(n, set, inside, s) by {
        if all_pass(m, set, inside, s) {
            assert forall|i: int| 0 <= i < s.len() implies passes(
                n,
                set,
                inside,
                #[trigger] s[i],
            ) by {
                assert(passes(m, set, inside, s[i]));
            }
        }
        if all_pass(n, set, inside, s) {
            assert forall|i: int| 0 <= i < s.len() implies passes(
                m,
                set,
                inside,
                #[trigger] s[i],
            ) by {
                assert(passes(n, set, inside, s[i]));
            }
        }
    }
}

impl<'a> Selector<AbstractValue, LinArith> for FactFilter<'a> {
    closed spec fn accepts(&self, k: AbstractValue, v: Lin) -> bool {
        passes(self.phi(), self.set@, self.inside, k) && all_pass(
            self.phi(),
            self.set@,
            self.inside,
            lin_vars(v),
        )
    }

    fn test(&self, k: &AbstractValue, v: &LinArith) -> (b: bool) {
        self.value(*k) && self.values(&v.get_variables())
    }
}

impl<'a> Selector<AbstractValue, TermEq> for FactFilter<'a> {
    closed spec fn accepts(&self, k: AbstractValue, v: TermEq) -> bool {
        passes(self.phi(), self.set@, self.inside, k) && operand_passes(
            self.phi(),
            self.set@,
            self.inside,
            v.lhs,
        ) && operand_passes(self.phi(), self.set@, self.inside, v.rhs)
    }

    fn test(&self, k: &AbstractValue, v: &TermEq) -> (b: bool) {
        self.value(*k) && self.operand(&v.lhs) && self.operand(&v.rhs)
    }
}

impl<'a> Selector<AbstractValue, CItv> for FactFilter<'a> {
    closed spec fn accepts(&self, k: AbstractValue, v: CItv) -> bool {
        passes(self.phi(), self.set@, self.inside, k)
    }

    fn test(&self, k: &AbstractValue, v: &CItv) -> (b: bool) {
        self.value(*k)
    }
}

impl<'a> Selector<FnAppKey, AbstractValue> for FactFilter<'a> {
    closed spec fn accepts(&self, k: AppKey, v: AbstractValue) -> bool {
        passes(self.phi(), self.set@, self.inside, v) && actuals_pass(
            self.phi(),
            self.set@,
            self.inside,
            k.actuals,
        )
    }

    fn test(&self, k: &FnAppKey, v: &AbstractValue) -> (b: bool) {
        if !self.value(*v) {
            return false;
        }
        let mut i: usize = 0;
        while i < k.actuals.len()
            invariant
                i <= k.actuals@.len(),
                forall|j: int|
                    0 <= j < i ==> match #[trigger] k.actuals@[j] {
                        FnAppActual::Const(_) => true,
                        FnAppActual::Var(v) => passes(self.phi(), self.set@, self.inside, v),
                    },
            decreases k.actuals@.len() - i,
        {
            match k.actuals[i] {
                FnAppActual::Const(_) => {},
                FnAppActual::Var(w) => {
                    if !self.value(w) {
                        assert(k.actuals@[i as int] == FnAppActual::Var(w));
                        return false;
                    }
                },
            }
            i = i + 1;
        }
        true
    }
}

impl<'a> Selector<TermKey, AbstractValue> for FactFilter<'a> {
    closed spec fn accepts(&self, k: TermKey, v: AbstractValue) -> bool {
        passes(self.phi(), self.set@, self.inside, v) && operand_passes(
            self.phi(),
            self.set@,
            self.inside,
            k.lhs,
        ) && operand_passes(self.phi(), self.set@, self.inside, k.rhs)
    }

    fn test(&self, k: &TermKey, v: &AbstractValue) -> (b: bool) {
        self.value(*v) && self.operand(&k.lhs) && self.operand(&k.rhs)
    }
}

impl<'a> ElementTest<Atom> for FactFilter<'a> {
    closed spec fn accepts(&self, k: Atom) -> bool {
        atom_passes(self.phi(), self.set@, self.inside, k)
    }

    fn test(&self, k: &Atom) -> (b: bool) {
        self.values(&k.all_vars())
    }
}

impl<'a> ElementTest<AbstractValue> for FactFilter<'a> {
    closed spec fn accepts(&self, k: AbstractValue) -> bool {
        passes(self.phi(), self.set@, self.inside, k)
    }

    fn test(&self, k: &AbstractValue) -> (b: bool) {
        self.value(*k)
    }
}

impl Phi {
    /// Mark a variable as integer-typed.
    ///
    /// When the linear solver later derives a non-integer rational constant
    /// for this variable, the path is Unsat.
    pub fn mark_is_int(&mut self, v: AbstractValue)
        ensures
            final(self)@ == marked_int(old(self)@, v),
    {
        let repr_v = self.get_repr(v);
        self.is_int_vars.insert(repr_v);
    }

    fn canonical_actual(&self, v: AbstractValue) -> (r: FnAppActual)
        ensures
            r == app_actual(self@, v),
    {
        match self.get_known_const(v) {
            Some(q) => {
                if q.is_integer() {
                    return FnAppActual::Const(q.numer());
                }
            },
            None => {},
        }
        FnAppActual::Var(self.get_repr(v))
    }

    /// What identifies a call: its function and its canonical actuals.
    pub fn call_key(&self, callee: &str, actuals: &Vec<AbstractValue>) -> (key: FnAppKey)
        ensures
            key@ == app_key(self@, callee@, actuals@),
    {
        let mut canonical: Vec<FnAppActual> = Vec::new();
        let mut i: usize = 0;
        let ghost f = |v: AbstractValue| app_actual(self@, v);
        while i < actuals.len()
            invariant
                i <= actuals@.len(),
                f == (|v: AbstractValue| app_actual(self@, v)),
                canonical@ =~= actuals@.take(i as int).map_values(f),
            decreases actuals@.len() - i,
        {
            canonical.push(self.canonical_actual(actuals[i]));
            i = i + 1;
        }
        assert(actuals@.take(i as int) =~= actuals@);
        let key = FnAppKey { callee: callee.to_owned(), actuals: canonical };
        assert(key@ =~= app_key(self@, callee@, actuals@));
        key
    }

    /// Record a function application: ret_val = f(actuals).
    ///
    /// If the same function with the same actuals was already recorded,
    /// unify ret_val with the previous return value.
    pub fn and_fn_app(
        &mut self,
        ret_val: AbstractValue,
        callee: &str,
        actuals: &Vec<AbstractValue>,
    ) -> (r: SatUnsat<Vec<NewEq>>)
        requires
            run_fn_app(old(self)@, ret_val, callee@, actuals@) is Some,
        ensures
            run_fn_app(old(self)@, ret_val, callee@, actuals@) == Some((final(self)@, report(r))),
    {
        let key = self.call_key(callee, actuals);
        let ret_repr = self.get_repr(ret_val);
        match self.fn_app_eqs.get(&key) {
            Some(existing) => {
                let existing = *existing;
                self.and_var_equal(ret_repr, existing)
            },
            None => {
                self.fn_app_eqs.insert(key, ret_repr);
                SatUnsat::Sat(Vec::new())
            },
        }
    }

    /// The remembered pure-function applications, by callee and actuals.
    pub fn iter_fn_app_eqs(&self) -> (r: &OrdMap<FnAppKey, AbstractValue>)
        ensures
            r@ == self@.apps,
    {
        &self.fn_app_eqs
    }

    /// Record a disequality or inequality atom.
    pub fn and_atom(&mut self, atom: Atom) -> (r: SatUnsat<Vec<NewEq>>)
        requires
            run_atom(old(self)@, atom) is Some,
        ensures
            run_atom(old(self)@, atom) == Some((final(self)@, report(r))),
    {
        let resolved = self.resolve_atom(&atom);
        match resolved.is_trivially_true() {
            Some(true) => {
                return SatUnsat::Sat(Vec::new());
            },
            Some(false) => {
                return SatUnsat::Unsat;
            },
            None => {},
        }
        if self.contradicts(&resolved) {
            return SatUnsat::Unsat;
        }
        self.atoms.insert(resolved);
        SatUnsat::Sat(Vec::new())
    }

    fn contradicts(&self, atom: &Atom) -> (b: bool)
        ensures
            b == contradicted(self@.atoms, *atom),
    {
        if self.atoms.contains(&atom.negate()) {
            return true;
        }
        match atom {
            Atom::LessThan(a, b) => {
                self.atoms.contains(&Atom::LessThan(b.clone(), a.clone())) || self.atoms.contains(
                    &Atom::Equal(a.clone(), b.clone()),
                ) || self.atoms.contains(&Atom::Equal(b.clone(), a.clone()))
            },
            Atom::Equal(a, b) => {
                self.atoms.contains(&Atom::LessThan(a.clone(), b.clone())) || self.atoms.contains(
                    &Atom::LessThan(b.clone(), a.clone()),
                )
            },
            _ => false,
        }
    }

    fn canonical_term_operand(&self, o: &Operand) -> (r: Operand)
        ensures
            r == canonical_operand(self@, *o),
    {
        match o {
            Operand::ConstOperand(c) => Operand::ConstOperand(*c),
            Operand::AbstractValue(v) => match self.canonical_actual(*v) {
                FnAppActual::Const(c) => Operand::ConstOperand(c),
                FnAppActual::Var(r) => Operand::AbstractValue(r),
            },
        }
    }

    /// The value of `op` on operands with the same canonical form, if it has
    /// been registered.
    pub fn find_term_value(&self, op: &Binop, x: &Operand, y: &Operand) -> (r: Option<
        AbstractValue,
    >)
        ensures
            r == lookup(self@.values, term_key(self@, *op, *x, *y)),
    {
        let key = TermKey {
            op: *op,
            lhs: self.canonical_term_operand(x),
            rhs: self.canonical_term_operand(y),
        };
        match self.term_values.get(&key) {
            Some(v) => Some(*v),
            None => None,
        }
    }

    /// Remember `v` as the value of `op` on these operands.
    pub fn register_term_value(&mut self, op: &Binop, x: &Operand, y: &Operand, v: AbstractValue)
        ensures
            final(self)@ == (PhiModel {
                values: put::<TermKey, AbstractValue>(
                    old(self)@.values,
                    term_key(old(self)@, *op, *x, *y),
                    v,
                ),
                ..old(self)@
            }),
    {
        let key = TermKey {
            op: *op,
            lhs: self.canonical_term_operand(x),
            rhs: self.canonical_term_operand(y),
        };
        self.term_values.insert(key, v);
    }

    /// Keeps the facts whose values' representatives are all in the set, or
    /// all outside it.
    fn filter_facts(&mut self, set: &ValueSet, inside: bool, keep_ints: bool)
        ensures
            final(self)@ == filtered(old(self)@, set@, inside, keep_ints),
    {
        let ghost m = self@;
        let filter = FactFilter { var_eqs: &self.var_eqs, set, inside };
        let ghost f = filter;
        proof {
            lemma_filter_phi(m, f.phi(), set@, inside);
        }
        self.atoms.retain(&filter);
        self.linear_eqs.retain(&filter);
        self.term_eqs.retain(&filter);
        self.intervals.retain(&filter);
        if !keep_ints {
            self.is_int_vars.retain(&filter);
        }
        self.fn_app_eqs.retain(&filter);
        self.term_values.retain(&filter);
        proof {
            let g = filtered(m, set@, inside, keep_ints);
            assert((|k: Atom| <FactFilter as ElementTest<Atom>>::accepts(&f, k)) =~= (|a: Atom|
                atom_passes(m, set@, inside, a)));
            assert((|k: AbstractValue|
                <FactFilter as ElementTest<AbstractValue>>::accepts(&f, k)) =~= (|v: AbstractValue|
                passes(m, set@, inside, v)));
            assert((|e: (AbstractValue, Lin)|
                <FactFilter as Selector<AbstractValue, LinArith>>::accepts(&f, e.0, e.1)) =~= (|
                e: (AbstractValue, Lin),
            |
                passes(m, set@, inside, e.0) && all_pass(m, set@, inside, lin_vars(e.1))));
            assert((|e: (AbstractValue, TermEq)|
                <FactFilter as Selector<AbstractValue, TermEq>>::accepts(&f, e.0, e.1)) =~= (|
                e: (AbstractValue, TermEq),
            |
                passes(m, set@, inside, e.0) && operand_passes(m, set@, inside, e.1.lhs)
                    && operand_passes(m, set@, inside, e.1.rhs)));
            assert((|e: (AbstractValue, CItv)|
                <FactFilter as Selector<AbstractValue, CItv>>::accepts(&f, e.0, e.1)) =~= (|
                e: (AbstractValue, CItv),
            | passes(m, set@, inside, e.0)));
            assert((|e: (AppKey, AbstractValue)|
                <FactFilter as Selector<FnAppKey, AbstractValue>>::accepts(&f, e.0, e.1)) =~= (|
                e: (AppKey, AbstractValue),
            |
                passes(m, set@, inside, e.1) && actuals_pass(m, set@, inside, e.0.actuals)));
            assert((|e: (TermKey, AbstractValue)|
                <FactFilter as Selector<TermKey, AbstractValue>>::accepts(&f, e.0, e.1)) =~= (|
                e: (TermKey, AbstractValue),
            |
                passes(m, set@, inside, e.1) && operand_passes(m, set@, inside, e.0.lhs)
                    && operand_passes(m, set@, inside, e.0.rhs)));
            assert(self@ =~= g);
        }
    }

    /// Simplify: remove constraints mentioning unreachable variables.
    pub fn simplify(&mut self, reachable: &ValueSet)
        ensures
            final(self)@ == filtered(old(self)@, reachable@, true, false),
    {
        self.filter_facts(reachable, true, false);
    }

    /// Forget pure constraints mentioning the given canonical values while
    /// preserving the remaining heap-facing equality classes.
    pub fn forget_constraints_involving(&mut self, ignored: &ValueSet)
        ensures
            final(self)@ == filtered(old(self)@, ignored@, false, false),
    {
        self.filter_facts(ignored, false, false);
    }

    /// Forget pure constraints involving the given canonical values while
    /// preserving integer-type facts on those values.
    pub fn forget_non_type_constraints_involving(&mut self, ignored: &ValueSet)
        ensures
            final(self)@ == filtered(old(self)@, ignored@, false, true),
    {
        self.filter_facts(ignored, false, true);
    }
}

/// Convert a LinArith to a Term (for atom substitution).
fn lin_to_term(lin: &LinArith) -> (r: Term)
    ensures
        r == lin_term(lin@),
{
    let mut result: Option<Term> = None;
    let ghost s = lin@.vars;
    let mut i: usize = 0;
    assert(s.skip(0) =~= s);
    while i < lin.vars.len()
        invariant
            i <= s.len(),
            s == lin@.vars,
            lin_term_from(s.skip(i as int), result) == lin_term_from(s, None),
        decreases s.len() - i,
    {
        proof {
            assert(s.skip(i as int)[0] == s[i as int]);
            assert(s.skip(i as int).drop_first() =~= s.skip(i + 1));
        }
        let v = *lin.vars.key_at(i);
        let coeff = *lin.vars.value_at(i);
        let var_term = if coeff == Q::from_integer(1) {
            Term::Var(v)
        } else {
            Term::Mult(Box::new(Term::of_q(coeff)), Box::new(Term::Var(v)))
        };
        result = Some(plus_term(result, var_term));
        i = i + 1;
    }
    if !lin.constant.is_zero() {
        plus_term(result, Term::of_q(lin.constant))
    } else {
        match result {
            None => Term::Const(0),
            Some(t) => t,
        }
    }
}

fn plus_term(acc: Option<Term>, t: Term) -> (r: Term)
    ensures
        r == term_plus(acc, t),
{
    match acc {
        None => t,
        Some(a) => Term::Add(Box::new(a), Box::new(t)),
    }
}

impl View for CItv {
    type V = CItv;

    open spec fn view(&self) -> CItv {
        *self
    }
}

impl Dup for CItv {
    fn dup(&self) -> (r: Self) {
        *self
    }
}

} // verus!
