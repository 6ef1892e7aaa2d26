//! What the operations on formulas compute.

use super::Operand;
use super::atom::{atom_trivial, Atom};
use super::citv::{in_i64, AbductionResult, Bound, CItv};
use super::lin_arith::{lin_add, lin_const, lin_sub, lin_var, Lin};
use super::phi::{NewEq, TermEq, TermKey};
use super::resolve::{normalized_condition, summarized_atom};
use super::solver::{
    atom_passes, filtered, known_const, marked_int, run_atom, run_const_eq, run_interval,
    run_linear_eq, run_var_equal, term_key, Outcome, PhiModel,
};
use super::term::Term;
use super::var_uf::repr;
use crate::abstract_value::AbstractValue;
use crate::binop::Binop;
use crate::ordered::{lookup, put, set_put};
use crate::rational::{abs, q_div, q_int, Q};
use crate::sat_unsat::SatUnsat;
use vstd::prelude::*;

verus! {

/// A solver state and the conditions recorded along the path, each with the
/// smallest call depth it was seen at.
#[verifier::ext_equal]
pub struct FormulaModel {
    pub conditions: Seq<(Atom, usize)>,
    pub phi: PhiModel,
}

pub type FOutcome = Option<(FormulaModel, SatUnsat<Seq<NewEq>>)>;

/// An operation on the solver state leaves the conditions as they are.
pub open spec fn lifted(f: FormulaModel, o: Outcome) -> FOutcome {
    match o {
        None => None,
        Some((m, res)) => Some((FormulaModel { phi: m, ..f }, res)),
    }
}

pub open spec fn operand_term(m: PhiModel, o: Operand) -> Term {
    match o {
        Operand::AbstractValue(v) => Term::Var(repr(m.eqs, v)),
        Operand::ConstOperand(c) => Term::Const(c),
    }
}

pub open spec fn operand_lin(m: PhiModel, o: Operand) -> Lin {
    match o {
        Operand::AbstractValue(v) => lin_var(repr(m.eqs, v)),
        Operand::ConstOperand(c) => lin_const(q_int(c)),
    }
}

pub open spec fn operand_itv(m: PhiModel, o: Operand) -> Option<CItv> {
    match o {
        Operand::ConstOperand(c) => Some(CItv::Between(Bound::Int(c), Bound::Int(c))),
        Operand::AbstractValue(v) => lookup(m.itvs, repr(m.eqs, v)),
    }
}

/// The quotient rounded toward zero.
pub open spec fn trunc_div(a: int, b: int) -> int {
    let q = abs(a) as int / abs(b) as int;
    if (a < 0) == (b < 0) {
        q
    } else {
        -q
    }
}

/// The remainder that goes with [`trunc_div`]; it has the sign of `a`.
pub open spec fn trunc_rem(a: int, b: int) -> int {
    a - b * trunc_div(a, b)
}

/// The integer that an operand is known to equal.
pub open spec fn operand_int(m: PhiModel, o: Operand) -> Option<i64> {
    match o {
        Operand::ConstOperand(c) => Some(c),
        Operand::AbstractValue(v) => match known_const(m, v) {
            None => None,
            Some(q) => if q.denom == 1 {
                Some(q.numer)
            } else {
                None
            },
        },
    }
}

pub open spec fn operand_rational(m: PhiModel, o: Operand) -> Option<Q> {
    match o {
        Operand::ConstOperand(c) => Some(q_int(c)),
        Operand::AbstractValue(v) => known_const(m, v),
    }
}

pub open spec fn simple_operand(t: Term) -> Option<Operand> {
    match t {
        Term::Var(v) => Some(Operand::AbstractValue(v)),
        Term::Const(c) => Some(Operand::ConstOperand(c)),
        _ => None,
    }
}

pub open spec fn equal_operands(m: PhiModel, a: Operand, b: Operand) -> Outcome {
    match (a, b) {
        (Operand::AbstractValue(v), Operand::AbstractValue(w)) => run_var_equal(m, v, w),
        (Operand::AbstractValue(v), Operand::ConstOperand(c)) => run_const_eq(m, v, c),
        (Operand::ConstOperand(c), Operand::AbstractValue(v)) => run_const_eq(m, v, c),
        (Operand::ConstOperand(c), Operand::ConstOperand(d)) => Some(
            (
                m,
                if c == d {
                    SatUnsat::Sat(Seq::empty())
                } else {
                    SatUnsat::Unsat
                },
            ),
        ),
    }
}

pub open spec fn not_equal(m: PhiModel, a: Operand, b: Operand) -> Outcome {
    run_atom(m, Atom::NotEqual(operand_term(m, a), operand_term(m, b)))
}

/// Narrows the range of an operand that is a value.
pub open spec fn refine_operand(m: PhiModel, o: Operand, refined: Option<CItv>) -> Option<
    (PhiModel, bool),
> {
    match (refined, o) {
        (Some(i), Operand::AbstractValue(v)) => run_interval(m, v, i),
        _ => Some((m, true)),
    }
}

pub open spec fn itv_or_all(i: Option<CItv>) -> CItv {
    match i {
        Some(i) => i,
        None => CItv::Between(Bound::MinusInfinity, Bound::PlusInfinity),
    }
}

/// Checks a comparison against the ranges of its operands, where at least one
/// has a range, and narrows them; `false` when no values compare so.
pub open spec fn check_ranges(m: PhiModel, bop: Binop, a: Operand, b: Operand) -> Option<
    (PhiModel, bool),
> {
    let (i, j) = (operand_itv(m, a), operand_itv(m, b));
    if i is None && j is None {
        Some((m, true))
    } else if !CItv::binop_abduce_fits(false, bop, itv_or_all(i), itv_or_all(j)) {
        None
    } else {
        match CItv::binop_abduced(false, bop, itv_or_all(i), itv_or_all(j)) {
            AbductionResult::Unsatisfiable => Some((m, false)),
            AbductionResult::Satisfiable(x, y) => match refine_operand(m, a, x) {
                None => None,
                Some((m1, false)) => Some((m1, false)),
                Some((m1, true)) => refine_operand(m1, b, y),
            },
        }
    }
}

/// Records `a < b` when `strict`, `a <= b` otherwise.
pub open spec fn less(m: PhiModel, strict: bool, a: Operand, b: Operand) -> Outcome {
    let bop = if strict {
        Binop::Lt
    } else {
        Binop::Le
    };
    match check_ranges(m, bop, a, b) {
        None => None,
        Some((m1, false)) => Some((m1, SatUnsat::Unsat)),
        Some((m1, true)) => run_atom(m1, order_atom(m1, strict, a, b)),
    }
}

pub open spec fn order_atom(m: PhiModel, strict: bool, a: Operand, b: Operand) -> Atom {
    if strict {
        Atom::LessThan(operand_term(m, a), operand_term(m, b))
    } else {
        Atom::LessEqual(operand_term(m, a), operand_term(m, b))
    }
}

/// A condition in the form in which it is recorded; the inner `None` for one
/// that holds anyway.
pub open spec fn normalized(f: FormulaModel, a: Atom) -> Option<Option<Atom>> {
    match normalized_condition(f.phi, a) {
        None => None,
        Some(n) => match atom_trivial(n) {
            None => None,
            Some(Some(true)) => Some(None),
            Some(_) => Some(Some(n)),
        },
    }
}

/// The condition remembered at the smallest depth it was seen at.
pub open spec fn remembered(s: Seq<(Atom, usize)>, a: Atom, depth: usize) -> Seq<(Atom, usize)> {
    let d = match lookup(s, a) {
        Some(e) => if e < depth {
            e
        } else {
            depth
        },
        None => depth,
    };
    put::<Atom, usize>(s, a, d)
}

pub open spec fn conditions_with(
    s: Seq<(Atom, usize)>,
    condition: Option<Atom>,
    depth: usize,
) -> Option<Seq<(Atom, usize)>> {
    match condition {
        None => Some(s),
        Some(a) => match atom_trivial(a) {
            None => None,
            Some(Some(true)) => Some(s),
            Some(_) => Some(remembered(s, a, depth)),
        },
    }
}

/// The outcome of a constraint with its condition recorded when it is
/// satisfiable.
pub open spec fn recorded(condition: Option<Option<Atom>>, o: FOutcome, depth: usize) -> FOutcome {
    match (condition, o) {
        (Some(_), Some((f, SatUnsat::Unsat))) => Some((f, SatUnsat::Unsat)),
        (Some(c), Some((f, SatUnsat::Sat(eqs)))) => match conditions_with(f.conditions, c, depth) {
            None => None,
            Some(conditions) => Some((FormulaModel { conditions, ..f }, SatUnsat::Sat(eqs))),
        },
        _ => None,
    }
}

/// Records the constraint that a condition is.
pub open spec fn enforce(f: FormulaModel, a: Atom) -> FOutcome {
    match a {
        Atom::Equal(Term::Var(v), Term::Var(w)) => lifted(f, run_var_equal(f.phi, v, w)),
        Atom::Equal(Term::Var(v), Term::Const(c)) => lifted(f, run_const_eq(f.phi, v, c)),
        Atom::Equal(Term::Const(c), Term::Var(v)) => lifted(f, run_const_eq(f.phi, v, c)),
        Atom::LessEqual(x, y) => enforce_order(f, a, Binop::Le, x, y),
        Atom::LessThan(x, y) => enforce_order(f, a, Binop::Lt, x, y),
        _ => lifted(f, run_atom(f.phi, a)),
    }
}

pub open spec fn enforce_order(f: FormulaModel, a: Atom, bop: Binop, x: Term, y: Term) -> FOutcome {
    match (simple_operand(x), simple_operand(y)) {
        (Some(o), Some(p)) => match check_ranges(f.phi, bop, o, p) {
            None => None,
            Some((m, false)) => Some((FormulaModel { phi: m, ..f }, SatUnsat::Unsat)),
            Some((m, true)) => lifted(f, run_atom(m, a)),
        },
        _ => lifted(f, run_atom(f.phi, a)),
    }
}

/// Prunes by `v1 = v2`, or by its negation.
pub open spec fn prune_equal(
    f: FormulaModel,
    v1: AbstractValue,
    v2: AbstractValue,
    negated: bool,
    depth: usize,
) -> FOutcome {
    let (a, b) = (Operand::AbstractValue(v1), Operand::AbstractValue(v2));
    let bop = if negated {
        Binop::Ne
    } else {
        Binop::Eq
    };
    match check_ranges(f.phi, bop, a, b) {
        None => None,
        Some((m, false)) => Some((FormulaModel { phi: m, ..f }, SatUnsat::Unsat)),
        Some((m, true)) => {
            let g = FormulaModel { phi: m, ..f };
            let (s, t) = (operand_term(m, a), operand_term(m, b));
            if negated {
                recorded(normalized(g, Atom::NotEqual(s, t)), lifted(g, not_equal(m, a, b)), depth)
            } else {
                recorded(
                    normalized(g, Atom::Equal(s, t)),
                    lifted(g, run_var_equal(m, v1, v2)),
                    depth,
                )
            }
        },
    }
}

/// Prunes by an order between operands.
pub open spec fn prune_order(f: FormulaModel, strict: bool, a: Operand, b: Operand) -> FOutcome {
    recorded(
        normalized(f, order_atom(f.phi, strict, a, b)),
        lifted(f, less(f.phi, strict, a, b)),
        0,
    )
}

pub open spec fn negated_op(op: Binop) -> Option<Binop> {
    match op {
        Binop::Eq => Some(Binop::Ne),
        Binop::Ne => Some(Binop::Eq),
        Binop::Lt => Some(Binop::Ge),
        Binop::Ge => Some(Binop::Lt),
        Binop::Gt => Some(Binop::Le),
        Binop::Le => Some(Binop::Gt),
        _ => None,
    }
}

/// A comparison as an atom; `None` for operators that do not compare.
pub open spec fn comparison_atom(
    m: PhiModel,
    op: Binop,
    lhs: Operand,
    rhs: Operand,
    negated: bool,
) -> Option<Atom> {
    let (s, t) = (operand_term(m, lhs), operand_term(m, rhs));
    let effective = if negated {
        negated_op(op)
    } else {
        Some(op)
    };
    match effective {
        Some(Binop::Eq) => Some(Atom::Equal(s, t)),
        Some(Binop::Ne) => Some(Atom::NotEqual(s, t)),
        Some(Binop::Lt) => Some(Atom::LessThan(s, t)),
        Some(Binop::Le) => Some(Atom::LessEqual(s, t)),
        Some(Binop::Gt) => Some(Atom::LessThan(t, s)),
        Some(Binop::Ge) => Some(Atom::LessEqual(t, s)),
        _ => None,
    }
}

/// The comparison behind a value pruned against zero: true where the value is
/// not zero, false where it is.
pub open spec fn comparison_of(m: PhiModel, v: AbstractValue, c: i64, negated: bool) -> Option<
    Atom,
> {
    if c != 0 {
        None
    } else {
        let teq = match lookup(m.terms, v) {
            Some(t) => Some(t),
            None => lookup(m.terms, repr(m.eqs, v)),
        };
        match teq {
            None => None,
            Some(t) => comparison_atom(m, t.op, t.lhs, t.rhs, !negated),
        }
    }
}

/// Prunes by `v = c`, or by its negation.
pub open spec fn prune_const(f: FormulaModel, v: AbstractValue, c: i64, negated: bool) -> FOutcome {
    let behind = comparison_of(f.phi, v, c, negated);
    let t = Term::Var(repr(f.phi.eqs, v));
    let condition = match behind {
        Some(a) => a,
        None => if negated {
            Atom::NotEqual(t, Term::Const(c))
        } else {
            Atom::Equal(t, Term::Const(c))
        },
    };
    let enforced = match behind {
        Some(a) => enforce(f, a),
        None => Some((f, SatUnsat::Sat(Seq::empty()))),
    };
    match (normalized(f, condition), enforced) {
        (Some(_), Some((g, SatUnsat::Unsat))) => Some((g, SatUnsat::Unsat)),
        (Some(n), Some((g, SatUnsat::Sat(_)))) => recorded(
            Some(n),
            lifted(
                g,
                if negated {
                    not_equal(g.phi, Operand::AbstractValue(v), Operand::ConstOperand(c))
                } else {
                    run_const_eq(g.phi, v, c)
                },
            ),
            0,
        ),
        _ => None,
    }
}

pub open spec fn is_comparison(op: Binop) -> bool {
    op is Eq || op is Ne || op is Lt || op is Gt || op is Le || op is Ge
}

pub open spec fn compare_result(op: Binop, x: int, y: int) -> i64 {
    if op.holds(x, y) == Some(true) {
        1
    } else {
        0
    }
}

/// The result of an integer operation on constants; the inner `None` where it
/// has none, the outer where it is no 64-bit integer.
pub open spec fn fold_ints(op: Binop, x: i64, y: i64) -> Option<Option<i64>> {
    match op {
        Binop::Mult(_) => if in_i64(x * y) {
            Some(Some((x * y) as i64))
        } else {
            None
        },
        Binop::DivI => if y == 0 {
            Some(None)
        } else if x == i64::MIN && y == -1 {
            None
        } else {
            Some(Some(trunc_div(x as int, y as int) as i64))
        },
        Binop::Mod => if y == 0 {
            Some(None)
        } else if x == i64::MIN && y == -1 {
            None
        } else {
            Some(Some(trunc_rem(x as int, y as int) as i64))
        },
        Binop::Shiftlt => if 0 <= y < 64 {
            Some(Some(x << y))
        } else {
            Some(None)
        },
        Binop::Shiftrt => if 0 <= y < 64 {
            Some(Some(x >> y))
        } else {
            Some(None)
        },
        _ => Some(None),
    }
}

pub open spec fn fold_bits(op: Binop, x: i64, y: i64) -> i64 {
    match op {
        Binop::BAnd => x & y,
        Binop::BOr => x | y,
        _ => x ^ y,
    }
}

/// Records the range of a sum or difference where both operands have one.
pub open spec fn result_range(
    m: PhiModel,
    v: AbstractValue,
    op: Binop,
    x: Operand,
    y: Operand,
) -> Option<
    (PhiModel, bool),
> {
    match (operand_itv(m, x), operand_itv(m, y)) {
        (Some(i), Some(j)) => if CItv::binop_fits(op, i, j) {
            match CItv::binop_result(op, i, j) {
                Some(r) => run_interval(m, v, r),
                None => Some((m, true)),
            }
        } else {
            None
        },
        _ => Some((m, true)),
    }
}

/// Records `v = sum`, after its range.
pub open spec fn equal_sum(
    m: PhiModel,
    v: AbstractValue,
    op: Binop,
    x: Operand,
    y: Operand,
    l: Option<Lin>,
) -> Outcome {
    match result_range(m, v, op, x, y) {
        None => None,
        Some((m1, false)) => Some((m1, SatUnsat::Unsat)),
        Some((m1, true)) => match l {
            None => None,
            Some(l) => run_linear_eq(m1, v, l),
        },
    }
}

pub open spec fn unchanged(m: PhiModel) -> Outcome {
    Some((m, SatUnsat::Sat(Seq::empty())))
}

/// The two operands, where both are known integers.
pub open spec fn operand_ints(m: PhiModel, x: Operand, y: Operand) -> Option<(i64, i64)> {
    match (operand_int(m, x), operand_int(m, y)) {
        (Some(a), Some(b)) => Some((a, b)),
        _ => None,
    }
}

/// Records `v = x op y`: sums and differences as equations, comparisons and
/// other operations on constants as constants, other comparisons as terms.
pub open spec fn equal_binop_inner(
    m: PhiModel,
    v: AbstractValue,
    op: Binop,
    x: Operand,
    y: Operand,
) -> Outcome {
    match op {
        Binop::PlusA(_) | Binop::PlusPI => equal_sum(
            m,
            v,
            op,
            x,
            y,
            lin_add(operand_lin(m, x), operand_lin(m, y)),
        ),
        Binop::MinusA(_) | Binop::MinusPI | Binop::MinusPP => equal_sum(
            m,
            v,
            op,
            x,
            y,
            lin_sub(operand_lin(m, x), operand_lin(m, y)),
        ),
        Binop::Eq | Binop::Ne | Binop::Lt | Binop::Gt | Binop::Le | Binop::Ge => match operand_ints(
            m,
            x,
            y,
        ) {
            Some((a, b)) => run_const_eq(m, v, compare_result(op, a as int, b as int)),
            None => unchanged(
                PhiModel {
                    terms: put::<AbstractValue, TermEq>(
                        m.terms,
                        v,
                        TermEq { op, lhs: x, rhs: y },
                    ),
                    ..m
                },
            ),
        },
        Binop::DivF => match (operand_rational(m, x), operand_rational(m, y)) {
            (Some(a), Some(b)) => if b.numer == 0 {
                unchanged(m)
            } else {
                match q_div(a, b) {
                    None => None,
                    Some(q) => run_linear_eq(m, v, lin_const(q)),
                }
            },
            _ => unchanged(m),
        },
        Binop::Mult(_) | Binop::DivI | Binop::Mod | Binop::Shiftlt | Binop::Shiftrt => {
            match operand_ints(m, x, y) {
                Some((a, b)) => match fold_ints(op, a, b) {
                    None => None,
                    Some(None) => unchanged(m),
                    Some(Some(c)) => run_const_eq(m, v, c),
                },
                None => unchanged(m),
            }
        },
        Binop::BAnd | Binop::BOr | Binop::BXor => match operand_ints(m, x, y) {
            Some((a, b)) => run_const_eq(m, v, fold_bits(op, a, b)),
            None => unchanged(m),
        },
        _ => unchanged(m),
    }
}

pub open spec fn binop_integer_result(m: PhiModel, v: AbstractValue, op: Binop) -> PhiModel {
    if is_comparison(op) {
        marked_int(m, v)
    } else {
        m
    }
}

/// The state with the value of `x op y` remembered.
pub open spec fn with_value(m: PhiModel, v: AbstractValue, op: Binop, x: Operand, y: Operand) -> PhiModel {
    PhiModel {
        values: put::<TermKey, AbstractValue>(m.values, term_key(m, op, x, y), v),
        ..m
    }
}

/// Records `v = x op y`: as the value of the same operation evaluated before,
/// where there is one.
pub open spec fn equal_binop(m: PhiModel, v: AbstractValue, op: Binop, x: Operand, y: Operand) -> Outcome {
    match lookup(m.values, term_key(m, op, x, y)) {
        Some(existing) => if existing != v {
            run_var_equal(m, v, existing)
        } else {
            equal_fresh_binop(m, v, op, x, y)
        },
        None => equal_fresh_binop(m, v, op, x, y),
    }
}

pub open spec fn equal_fresh_binop(
    m: PhiModel,
    v: AbstractValue,
    op: Binop,
    x: Operand,
    y: Operand,
) -> Outcome {
    match equal_binop_inner(binop_integer_result(m, v, op), v, op, x, y) {
        None => None,
        Some((m1, res)) => Some((with_value(m1, v, op, x, y), res)),
    }
}

pub open spec fn known_zero_for_summary(
    m: PhiModel,
    v: AbstractValue,
    keep: Seq<AbstractValue>,
) -> Option<bool> {
    match summarized_atom(m, keep, Atom::Equal(Term::Var(v), Term::Const(0))) {
        None => None,
        Some(a) => match atom_trivial(a) {
            None => None,
            Some(Some(true)) => Some(true),
            Some(_) => Some(
                match a {
                    Atom::Equal(Term::Var(w), Term::Const(c)) => c == 0 && repr(m.eqs, w) == repr(
                        m.eqs,
                        v,
                    ),
                    Atom::Equal(Term::Const(c), Term::Var(w)) => c == 0 && repr(m.eqs, w) == repr(
                        m.eqs,
                        v,
                    ),
                    _ => false,
                },
            ),
        },
    }
}

/// A constant that is not zero, a range above zero, or a comparison that says that
/// the value is positive or not zero.
pub open spec fn known_nonzero(m: PhiModel, v: AbstractValue) -> bool {
    let r = repr(m.eqs, v);
    match known_const(m, v) {
        Some(q) => q.numer != 0,
        None => {
            ||| (lookup(m.itvs, r) matches Some(CItv::Between(Bound::Int(n), _)) && n > 0)
            ||| m.atoms.contains(Atom::LessThan(Term::Const(0), Term::Var(r)))
            ||| m.atoms.contains(Atom::NotEqual(Term::Var(r), Term::Const(0)))
            ||| m.atoms.contains(Atom::NotEqual(Term::Const(0), Term::Var(r)))
        },
    }
}

pub open spec fn conditions_filtered(f: FormulaModel, set: Seq<AbstractValue>, inside: bool) -> Seq<
    (Atom, usize),
> {
    f.conditions.filter(|e: (Atom, usize)| atom_passes(f.phi, set, inside, e.0))
}

/// The formula with only the facts and conditions all of whose values pass.
pub open spec fn formula_filtered(
    f: FormulaModel,
    set: Seq<AbstractValue>,
    inside: bool,
    keep_ints: bool,
) -> FormulaModel {
    FormulaModel {
        conditions: conditions_filtered(f, set, inside),
        phi: filtered(f.phi, set, inside, keep_ints),
    }
}

pub open spec fn representatives_from(
    m: PhiModel,
    s: Seq<AbstractValue>,
    acc: Seq<AbstractValue>,
) -> Seq<AbstractValue>
    decreases s.len(),
{
    if s.len() == 0 {
        acc
    } else {
        representatives_from(
            m,
            s.drop_first(),
            set_put::<AbstractValue>(acc, repr(m.eqs, s[0])),
        )
    }
}

/// The representatives of the values `s`, in order.
pub open spec fn representatives(m: PhiModel, s: Seq<AbstractValue>) -> Seq<AbstractValue> {
    representatives_from(m, s, Seq::empty())
}

/// The conditions `s` rewritten over visible values and put behind `acc`, without
/// those that hold anyway.
pub open spec fn rewrite_conditions(
    m: PhiModel,
    s: Seq<(Atom, usize)>,
    keep: Seq<AbstractValue>,
    acc: Seq<(Atom, usize)>,
) -> Option<Seq<(Atom, usize)>>
    decreases s.len(),
{
    if s.len() == 0 {
        Some(acc)
    } else {
        match summarized_atom(m, keep, s[0].0) {
            None => None,
            Some(a) => match atom_trivial(a) {
                None => None,
                Some(t) => rewrite_conditions(
                    m,
                    s.drop_first(),
                    keep,
                    if t == Some(true) {
                        acc
                    } else {
                        acc.push((a, s[0].1))
                    },
                ),
            },
        }
    }
}

/// The conditions of `s` that mention no value outside the vocabulary, added to
/// `acc`.
pub open spec fn conditions_within(
    m: PhiModel,
    s: Seq<(Atom, usize)>,
    vocabulary: Seq<AbstractValue>,
    acc: Seq<(Atom, usize)>,
) -> Seq<(Atom, usize)>
    decreases s.len(),
{
    if s.len() == 0 {
        acc
    } else {
        conditions_within(
            m,
            s.drop_first(),
            vocabulary,
            if atom_passes(m, vocabulary, true, s[0].0) {
                remembered(acc, s[0].0, s[0].1)
            } else {
                acc
            },
        )
    }
}

/// The conditions of an exported formula before those outside the vocabulary are
/// dropped.
pub open spec fn rewritten_conditions(f: FormulaModel, keep: Seq<AbstractValue>) -> Option<
    Seq<(Atom, usize)>,
> {
    rewrite_conditions(f.phi, f.conditions, keep, Seq::empty())
}

/// What of `s` the solver `m` keeps as conditions over the vocabulary.
pub open spec fn kept_conditions(
    m: PhiModel,
    s: Seq<(Atom, usize)>,
    vocabulary: Seq<AbstractValue>,
) -> Seq<(Atom, usize)> {
    conditions_within(m, s, representatives(m, vocabulary), Seq::empty())
}

/// Parts joined by the sign of conjunction.
pub open spec fn conjoined(s: Seq<Seq<char>>) -> Seq<char>
    decreases s.len(),
{
    if s.len() == 0 {
        seq![]
    } else if s.len() == 1 {
        s[0]
    } else {
        conjoined(s.drop_last()) + " ∧ "@ + s.last()
    }
}

/// The solved equations as they are shown.
pub open spec fn equation_texts(s: Seq<(AbstractValue, Lin)>) -> Seq<Seq<char>> {
    s.map_values(|e: (AbstractValue, Lin)| e.0.text() + " = "@ + e.1.text())
}

/// The comparisons as they are shown.
pub open spec fn atom_texts(s: Seq<Atom>) -> Seq<Seq<char>> {
    s.map_values(|a: Atom| a.text())
}

impl FormulaModel {
    /// The formula as it is shown: the solved equations and the comparisons.
    pub open spec fn text(self) -> Seq<char> {
        let parts = equation_texts(self.phi.lin) + atom_texts(self.phi.atoms);
        if parts.len() == 0 {
            "true"@
        } else {
            conjoined(parts)
        }
    }
}

} // verus!
