//! What the constraint solver computes.
//!
//! A [`PhiModel`] is the mathematical content of a solver state. The functions
//! `run_...` say how each operation changes it and what it reports. They are
//! `None` where a coefficient or an intermediate result leaves the 64-bit
//! integers. The definitions are well-founded because each merge of two classes is
//! tested to leave fewer to merge; that test never fails, as `progress_laws` shows.

use super::Operand;
use super::atom::{atom_negate, atom_subst, atom_trivial, Atom};
use super::citv::{Bound, CItv};
use super::lin_arith::{
    lin_add, lin_as_const, lin_as_var, lin_const, lin_scale, lin_solve, lin_sub, lin_subst, lin_var,
    Coeffs, Lin, Solved,
};
use super::phi::{AppKey, FnAppActual, FnAppKey, NewEq, TermEq, TermKey};
use super::resolve::resolved_atom;
use super::term::{term_of_q, term_vars, Term};
use super::var_uf::{repr, union_result, Eqs};
use crate::abstract_value::AbstractValue;
use crate::binop::Binop;
use crate::ordered::{del, lookup, put, set_put};
use crate::rational::{q_int, Q};
use crate::sat_unsat::SatUnsat;
use vstd::prelude::*;

verus! {

/// The facts a solver state holds, each collection in order.
#[verifier::ext_equal]
pub struct PhiModel {
    /// Values equal to a smaller value, with the smallest of their class.
    pub eqs: Eqs,
    /// Solved linear equations.
    pub lin: Seq<(AbstractValue, Lin)>,
    /// Comparisons that hold.
    pub atoms: Seq<Atom>,
    /// Values that are the result of a comparison.
    pub terms: Seq<(AbstractValue, TermEq)>,
    /// Integer ranges.
    pub itvs: Seq<(AbstractValue, CItv)>,
    /// Values that are integers.
    pub ints: Seq<AbstractValue>,
    /// Results of pure calls.
    pub apps: Seq<(AppKey, AbstractValue)>,
    /// Results of binary operations already evaluated.
    pub values: Seq<(TermKey, AbstractValue)>,
}

/// The state after an operation and what the operation reports.
pub type Outcome = Option<(PhiModel, SatUnsat<Seq<NewEq>>)>;

pub open spec fn empty_phi() -> PhiModel {
    PhiModel {
        eqs: Seq::empty(),
        lin: Seq::empty(),
        atoms: Seq::empty(),
        terms: Seq::empty(),
        itvs: Seq::empty(),
        ints: Seq::empty(),
        apps: Seq::empty(),
        values: Seq::empty(),
    }
}

pub open spec fn known_const(m: PhiModel, v: AbstractValue) -> Option<Q> {
    match lookup(m.lin, repr(m.eqs, v)) {
        None => None,
        Some(l) => lin_as_const(l),
    }
}

/// `acc` plus the terms `s`, each variable replaced by its representative and
/// that by its equation where it has one.
pub open spec fn normalize_from(m: PhiModel, acc: Lin, s: Coeffs) -> Option<Lin>
    decreases s.len(),
{
    if s.len() == 0 {
        Some(acc)
    } else {
        let r = repr(m.eqs, s[0].0);
        let meaning = match lookup(m.lin, r) {
            Some(l) => l,
            None => lin_var(r),
        };
        match lin_scale(meaning, s[0].1) {
            None => None,
            Some(t) => match lin_add(acc, t) {
                None => None,
                Some(a) => normalize_from(m, a, s.drop_first()),
            },
        }
    }
}

pub open spec fn normalize(m: PhiModel, l: Lin) -> Option<Lin> {
    normalize_from(m, lin_const(l.c), l.vars)
}

/// What `a = b` says in the state `m`.
pub open spec fn solve_equal(m: PhiModel, a: Lin, b: Lin) -> Option<Solved> {
    match (normalize(m, a), normalize(m, b)) {
        (Some(x), Some(y)) => match lin_sub(x, y) {
            None => None,
            Some(d) => lin_solve(d),
        },
        _ => None,
    }
}

/// What `v = l` says in the state `m`.
pub open spec fn solve_for(m: PhiModel, v: AbstractValue, l: Lin) -> Option<Solved> {
    solve_equal(m, lin_var(v), l)
}

/// The equations `s`, appended to `acc`, with `r` substituted for `x`.
pub open spec fn substituted(
    s: Seq<(AbstractValue, Lin)>,
    x: AbstractValue,
    r: Lin,
    acc: Seq<(AbstractValue, Lin)>,
) -> Option<Seq<(AbstractValue, Lin)>>
    decreases s.len(),
{
    if s.len() == 0 {
        Some(acc)
    } else {
        match lin_subst(s[0].1, x, r) {
            None => None,
            Some(t) => substituted(s.drop_first(), x, r, acc.push((s[0].0, t))),
        }
    }
}

/// The variables whose equations among `s` have `x` on their right-hand side,
/// appended to `acc`.
pub open spec fn mentioning(
    s: Seq<(AbstractValue, Lin)>,
    x: AbstractValue,
    acc: Seq<AbstractValue>,
) -> Seq<AbstractValue>
    decreases s.len(),
{
    if s.len() == 0 {
        acc
    } else if lookup(s[0].1.vars, x) is None {
        mentioning(s.drop_first(), x, acc)
    } else {
        mentioning(s.drop_first(), x, acc.push(s[0].0))
    }
}

/// The atoms `s` with `t` substituted for `x`, added to `acc` unless trivially
/// true; `false` at the first that is trivially false.
pub open spec fn substitute_atoms(
    s: Seq<Atom>,
    x: AbstractValue,
    t: Term,
    acc: Seq<Atom>,
) -> Option<
    (Seq<Atom>, bool),
>
    decreases s.len(),
{
    if s.len() == 0 {
        Some((acc, true))
    } else {
        let a = atom_subst(s[0], x, t);
        match atom_trivial(a) {
            None => None,
            Some(Some(false)) => Some((acc, false)),
            Some(Some(true)) => substitute_atoms(s.drop_first(), x, t, acc),
            Some(None) => substitute_atoms(s.drop_first(), x, t, set_put::<Atom>(acc, a)),
        }
    }
}

/// No integer among `s` has a constant that is not an integer.
pub open spec fn integers_consistent(m: PhiModel, s: Seq<AbstractValue>) -> Option<bool>
    decreases s.len(),
{
    if s.len() == 0 {
        Some(true)
    } else {
        match lookup(m.lin, repr(m.eqs, s[0])) {
            None => integers_consistent(m, s.drop_first()),
            Some(l) => match normalize(m, l) {
                None => None,
                Some(n) => match lin_as_const(n) {
                    Some(q) => if q.denom != 1 {
                        Some(false)
                    } else {
                        integers_consistent(m, s.drop_first())
                    },
                    None => integers_consistent(m, s.drop_first()),
                },
            },
        }
    }
}

/// `acc` plus the terms `s`.
pub open spec fn lin_term_from(s: Coeffs, acc: Option<Term>) -> Option<Term>
    decreases s.len(),
{
    if s.len() == 0 {
        acc
    } else {
        let t = if s[0].1 == q_int(1) {
            Term::Var(s[0].0)
        } else {
            Term::Mult(Box::new(term_of_q(s[0].1)), Box::new(Term::Var(s[0].0)))
        };
        lin_term_from(s.drop_first(), Some(term_plus(acc, t)))
    }
}

pub open spec fn term_plus(acc: Option<Term>, t: Term) -> Term {
    match acc {
        None => t,
        Some(a) => Term::Add(Box::new(a), Box::new(t)),
    }
}

/// A linear expression as a term.
pub open spec fn lin_term(l: Lin) -> Term {
    let sum = lin_term_from(l.vars, None);
    if l.c.numer != 0 {
        term_plus(sum, term_of_q(l.c))
    } else {
        match sum {
            None => Term::Const(0),
            Some(t) => t,
        }
    }
}

/// How many more values can join the class of a smaller one.
pub open spec fn room(m: PhiModel) -> int {
    0x1_0000_0000_0000_0000 - m.eqs.len()
}

pub open spec fn without_eq(m: PhiModel, x: AbstractValue) -> PhiModel {
    PhiModel { lin: del(m.lin, x), ..m }
}

/// Records the solved equation `x = sol`.
///
/// A constant that is no integer contradicts an integer `x`. An equation between
/// two variables merges their classes; any other is substituted into the other
/// equations, which may turn them into constants or equalities, and into the atoms.
pub open spec fn run_add(m: PhiModel, x: AbstractValue, sol: Lin) -> Outcome
    decreases room(m), 1int, 0int,
{
    let eqs = with_zero(Seq::empty(), x, lin_as_const(sol));
    if non_integer_clash(m, x, sol) {
        Some((m, SatUnsat::Unsat))
    } else {
        match lin_as_var(sol) {
            Some(y) => match union_result(m.eqs, x, y) {
                (_, None) => Some((m, SatUnsat::Sat(eqs))),
                (e, Some((gone, keep))) => {
                    let m1 = PhiModel { eqs: e, ..m };
                    if 0 <= room(m1) < room(m) {
                        prepend(
                            eqs,
                            run_propagate(m1, gone, keep, seq![NewEq::Equal(gone, keep)]),
                        )
                    } else {
                        None
                    }
                },
            },
            None => match substituted(m.lin, x, sol, Seq::empty()) {
                None => None,
                Some(lin) => match run_updates(
                    room(m),
                    PhiModel { lin: put::<AbstractValue, Lin>(lin, x, sol), ..m },
                    mentioning(m.lin, x, Seq::empty()),
                    eqs,
                ) {
                    None => None,
                    Some((m2, SatUnsat::Unsat)) => Some((m2, SatUnsat::Unsat)),
                    Some((m2, SatUnsat::Sat(eqs2))) => match substitute_atoms(
                        m2.atoms,
                        x,
                        lin_term(sol),
                        Seq::empty(),
                    ) {
                        None => None,
                        Some((atoms, false)) => Some((PhiModel { atoms, ..m2 }, SatUnsat::Unsat)),
                        Some((atoms, true)) => Some(
                            (PhiModel { atoms, ..m2 }, SatUnsat::Sat(eqs2)),
                        ),
                    },
                },
            },
        }
    }
}

/// An integer that would equal a constant that is no integer.
pub open spec fn non_integer_clash(m: PhiModel, x: AbstractValue, sol: Lin) -> bool {
    lin_as_const(sol) matches Some(q) && q.denom != 1 && m.ints.contains(repr(m.eqs, x))
}

pub open spec fn with_zero(eqs: Seq<NewEq>, x: AbstractValue, c: Option<Q>) -> Seq<NewEq> {
    match c {
        Some(q) => if q.numer == 0 {
            eqs.push(NewEq::EqZero(x))
        } else {
            eqs
        },
        None => eqs,
    }
}

pub open spec fn prepend(eqs: Seq<NewEq>, o: Outcome) -> Outcome {
    match o {
        Some((m, SatUnsat::Sat(more))) => Some((m, SatUnsat::Sat(eqs + more))),
        other => other,
    }
}

/// Takes up what substitution made of the equations of the variables `keys`: a
/// constant that is no integer contradicts an integer, an equality merges two
/// classes and is no equation any more, and any other is substituted into the atoms.
/// Fewer than `r` classes are left to merge after each merge.
pub open spec fn run_updates(
    r: int,
    m: PhiModel,
    keys: Seq<AbstractValue>,
    eqs: Seq<NewEq>,
) -> Outcome
    decreases r, 0int, keys.len(),
{
    if keys.len() == 0 {
        Some((m, SatUnsat::Sat(eqs)))
    } else {
        let v = keys[0];
        match lookup(m.lin, v) {
            None => run_updates(r, m, keys.drop_first(), eqs),
            Some(l) => {
                let eqs1 = with_zero(eqs, v, lin_as_const(l));
                if non_integer_clash(m, v, l) {
                    Some((m, SatUnsat::Unsat))
                } else {
                    match lin_as_var(l) {
                        Some(y) => {
                            let m1 = without_eq(m, v);
                            match union_result(m1.eqs, v, y) {
                                (_, None) => run_updates(r, m1, keys.drop_first(), eqs1),
                                (e, Some((gone, keep))) => {
                                    let m2 = PhiModel { eqs: e, ..m1 };
                                    if 0 <= room(m2) < r {
                                        match run_propagate(
                                            m2,
                                            gone,
                                            keep,
                                            seq![NewEq::Equal(gone, keep)],
                                        ) {
                                            None => None,
                                            Some((m3, SatUnsat::Unsat)) => Some(
                                                (m3, SatUnsat::Unsat),
                                            ),
                                            Some((m3, SatUnsat::Sat(more))) => run_updates(
                                                r,
                                                m3,
                                                keys.drop_first(),
                                                eqs1 + more,
                                            ),
                                        }
                                    } else {
                                        None
                                    }
                                },
                            }
                        },
                        None => match substitute_atoms(m.atoms, v, lin_term(l), Seq::empty()) {
                            None => None,
                            Some((atoms, false)) => Some(
                                (PhiModel { atoms, ..m }, SatUnsat::Unsat),
                            ),
                            Some((atoms, true)) => run_updates(
                                r,
                                PhiModel { atoms, ..m },
                                keys.drop_first(),
                                eqs1,
                            ),
                        },
                    }
                }
            },
        }
    }
}

/// One of the equations has `x` on its right-hand side.
pub open spec fn used_in_range(s: Seq<(AbstractValue, Lin)>, x: AbstractValue) -> bool {
    exists|i: int| 0 <= i < s.len() && lookup((#[trigger] s[i]).1.vars, x) is Some
}

/// The variable whose equation cannot stay when `gone` joins the class of `keep`:
/// `gone` itself, or `keep` where other equations are about to mention it.
pub open spec fn displaced(
    s: Seq<(AbstractValue, Lin)>,
    gone: AbstractValue,
    keep: AbstractValue,
) -> Option<AbstractValue> {
    if lookup(s, gone) is Some {
        Some(gone)
    } else if lookup(s, keep) is Some && used_in_range(s, gone) {
        Some(keep)
    } else {
        None
    }
}

/// The equations without the one that cannot stay.
pub open spec fn staying(m: PhiModel, gone: AbstractValue, keep: AbstractValue) -> Seq<
    (AbstractValue, Lin),
> {
    match displaced(m.lin, gone, keep) {
        None => m.lin,
        Some(k) => del(m.lin, k),
    }
}

/// The equations that stay, with `gone` renamed to `keep`.
pub open spec fn renamed_lin(m: PhiModel, gone: AbstractValue, keep: AbstractValue) -> Option<
    Seq<(AbstractValue, Lin)>,
> {
    substituted(staying(m, gone, keep), gone, lin_var(keep), Seq::empty())
}

/// Carries the merge of `gone` into the class of `keep` through equations,
/// integers and atoms. An equation that cannot stay is recorded anew for `keep`.
pub open spec fn run_propagate(
    m: PhiModel,
    gone: AbstractValue,
    keep: AbstractValue,
    eqs: Seq<NewEq>,
) -> Outcome
    decreases room(m), 3int, 0int,
{
    match renamed_lin(m, gone, keep) {
        None => None,
        Some(renamed) => {
            let m1 = PhiModel { lin: renamed, ..m };
            let start: Outcome = match displaced(m.lin, gone, keep) {
                None => Some((m1, SatUnsat::Sat(eqs))),
                Some(k) => prepend(eqs, run_linear_eq(m1, keep, lookup(m.lin, k)->0)),
            };
            match start {
                None => None,
                Some((m2, SatUnsat::Unsat)) => Some((m2, SatUnsat::Unsat)),
                Some((m2, SatUnsat::Sat(eqs1))) => match run_updates(
                    room(m),
                    m2,
                    mentioning(staying(m, gone, keep), gone, Seq::empty()),
                    eqs1,
                ) {
                    None => None,
                    Some((m3, SatUnsat::Unsat)) => Some((m3, SatUnsat::Unsat)),
                    Some((m3, SatUnsat::Sat(eqs2))) => finish_propagate(m3, gone, keep, eqs2),
                },
            }
        },
    }
}

pub open spec fn finish_propagate(
    m: PhiModel,
    gone: AbstractValue,
    keep: AbstractValue,
    eqs: Seq<NewEq>,
) -> Outcome {
    match integers_consistent(m, m.ints) {
        None => None,
        Some(false) => Some((m, SatUnsat::Unsat)),
        Some(true) => match substitute_atoms(m.atoms, gone, Term::Var(keep), Seq::empty()) {
            None => None,
            Some((atoms, false)) => Some((PhiModel { atoms, ..m }, SatUnsat::Unsat)),
            Some((atoms, true)) => Some(
                (
                    PhiModel { atoms, ..m },
                    SatUnsat::Sat(with_zero(eqs, keep, known_const(m, keep))),
                ),
            ),
        },
    }
}

/// Records `v = l`. Where `l` stands for a variable, the two classes are merged,
/// whatever is known of `v`. Where the equation is known already, it still reports
/// that `v` is zero.
pub open spec fn run_linear_eq(m: PhiModel, v: AbstractValue, l: Lin) -> Outcome
    decreases room(m), 2int, 0int,
{
    match normalize(m, l) {
        None => None,
        Some(n) => if lin_as_var(n) is Some {
            run_add(m, v, n)
        } else {
            match solve_for(m, v, l) {
                None => None,
                Some(SatUnsat::Unsat) => Some((m, SatUnsat::Unsat)),
                Some(SatUnsat::Sat(None)) => Some(
                    (
                        m,
                        SatUnsat::Sat(
                            with_zero(Seq::empty(), repr(m.eqs, v), lin_as_const(n)),
                        ),
                    ),
                ),
                Some(SatUnsat::Sat(Some((x, s)))) => run_add(m, x, s),
            }
        },
    }
}

/// Records `v1 = v2`.
pub open spec fn run_var_equal(m: PhiModel, v1: AbstractValue, v2: AbstractValue) -> Outcome {
    match union_result(m.eqs, v1, v2) {
        (_, None) => Some((m, SatUnsat::Sat(Seq::empty()))),
        (e, Some((gone, keep))) => run_propagate(
            PhiModel { eqs: e, ..m },
            gone,
            keep,
            seq![NewEq::Equal(gone, keep)],
        ),
    }
}

/// The range of `v` after learning that it is also in `i`. The outer `None`
/// stands for a bound that leaves the 64-bit integers, the inner for an empty
/// range.
pub open spec fn refined_itv(m: PhiModel, v: AbstractValue, i: CItv) -> Option<Option<CItv>> {
    match lookup(m.itvs, repr(m.eqs, v)) {
        None => Some(Some(i)),
        Some(e) => if e.eq_fits(i) {
            Some(e.meet(i))
        } else {
            None
        },
    }
}

/// Records that `v` is in the range `i`. A range of one integer is an
/// equation. `false` reports a contradiction.
pub open spec fn run_interval(m: PhiModel, v: AbstractValue, i: CItv) -> Option<(PhiModel, bool)> {
    let r = repr(m.eqs, v);
    match refined_itv(m, v, i) {
        None => None,
        Some(None) => Some((m, false)),
        Some(Some(better)) => {
            let m1 = PhiModel { itvs: put::<AbstractValue, CItv>(m.itvs, r, better), ..m };
            match better.singleton() {
                None => Some((m1, true)),
                Some(c) => if known_const(m1, r) == Some(q_int(c)) {
                    Some((m1, true))
                } else {
                    match run_linear_eq(m1, r, lin_const(q_int(c))) {
                        None => None,
                        Some((m2, res)) => Some((m2, res is Sat)),
                    }
                },
            }
        },
    }
}

/// Records `v = c`, as a range and as an equation.
pub open spec fn run_const_eq(m: PhiModel, v: AbstractValue, c: i64) -> Outcome {
    match run_interval(m, repr(m.eqs, v), CItv::Between(Bound::Int(c), Bound::Int(c))) {
        None => None,
        Some((m1, false)) => Some((m1, SatUnsat::Unsat)),
        Some((m1, true)) => run_linear_eq(m1, v, lin_const(q_int(c))),
    }
}

/// An actual argument as its integer constant where it has one, as its
/// representative otherwise.
pub open spec fn app_actual(m: PhiModel, v: AbstractValue) -> FnAppActual {
    match known_const(m, v) {
        Some(q) => if q.denom == 1 {
            FnAppActual::Const(q.numer)
        } else {
            FnAppActual::Var(repr(m.eqs, v))
        },
        None => FnAppActual::Var(repr(m.eqs, v)),
    }
}

pub open spec fn app_key(m: PhiModel, callee: Seq<char>, actuals: Seq<AbstractValue>) -> AppKey {
    AppKey { callee, actuals: actuals.map_values(|v: AbstractValue| app_actual(m, v)) }
}

/// Records that `ret` is the result of a pure call: the result of the same
/// call made before, where there is one.
pub open spec fn run_fn_app(
    m: PhiModel,
    ret: AbstractValue,
    callee: Seq<char>,
    actuals: Seq<AbstractValue>,
) -> Outcome {
    let key = app_key(m, callee, actuals);
    let r = repr(m.eqs, ret);
    match lookup(m.apps, key) {
        Some(existing) => run_var_equal(m, r, existing),
        None => Some(
            (
                PhiModel { apps: put::<FnAppKey, AbstractValue>(m.apps, key, r), ..m },
                SatUnsat::Sat(Seq::empty()),
            ),
        ),
    }
}

/// `a` contradicts one of the atoms `s`: its negation is among them, or a
/// strict comparison meets an equality or a comparison the other way round.
pub open spec fn contradicted(s: Seq<Atom>, a: Atom) -> bool {
    s.contains(atom_negate(a)) || match a {
        Atom::LessThan(x, y) => s.contains(Atom::LessThan(y, x)) || s.contains(Atom::Equal(x, y))
            || s.contains(Atom::Equal(y, x)),
        Atom::Equal(x, y) => s.contains(Atom::LessThan(x, y)) || s.contains(Atom::LessThan(y, x)),
        _ => false,
    }
}

/// Records the comparison `a`, resolved.
pub open spec fn run_atom(m: PhiModel, a: Atom) -> Outcome {
    match resolved_atom(m, a) {
        None => None,
        Some(r) => match atom_trivial(r) {
            None => None,
            Some(Some(true)) => Some((m, SatUnsat::Sat(Seq::empty()))),
            Some(Some(false)) => Some((m, SatUnsat::Unsat)),
            Some(None) => if contradicted(m.atoms, r) {
                Some((m, SatUnsat::Unsat))
            } else {
                Some(
                    (
                        PhiModel { atoms: set_put::<Atom>(m.atoms, r), ..m },
                        SatUnsat::Sat(Seq::empty()),
                    ),
                )
            },
        },
    }
}

pub open spec fn marked_int(m: PhiModel, v: AbstractValue) -> PhiModel {
    PhiModel { ints: set_put::<AbstractValue>(m.ints, repr(m.eqs, v)), ..m }
}

/// An operand as a constant where its integer value is known, as its
/// representative otherwise.
pub open spec fn canonical_operand(m: PhiModel, o: Operand) -> Operand {
    match o {
        Operand::ConstOperand(c) => o,
        Operand::AbstractValue(v) => match app_actual(m, v) {
            FnAppActual::Const(c) => Operand::ConstOperand(c),
            FnAppActual::Var(r) => Operand::AbstractValue(r),
        },
    }
}

pub open spec fn term_key(m: PhiModel, op: Binop, x: Operand, y: Operand) -> TermKey {
    TermKey { op, lhs: canonical_operand(m, x), rhs: canonical_operand(m, y) }
}

/// Which facts a state keeps: those whose values all pass the test on
/// representatives.
pub open spec fn passes(m: PhiModel, set: Seq<AbstractValue>, inside: bool, v: AbstractValue) -> bool {
    set.contains(repr(m.eqs, v)) == inside
}

pub open spec fn all_pass(
    m: PhiModel,
    set: Seq<AbstractValue>,
    inside: bool,
    vs: Seq<AbstractValue>,
) -> bool {
    forall|i: int| 0 <= i < vs.len() ==> passes(m, set, inside, #[trigger] vs[i])
}

pub open spec fn operand_passes(
    m: PhiModel,
    set: Seq<AbstractValue>,
    inside: bool,
    o: Operand,
) -> bool {
    match o {
        Operand::AbstractValue(v) => passes(m, set, inside, v),
        Operand::ConstOperand(_) => true,
    }
}

pub open spec fn actuals_pass(
    m: PhiModel,
    set: Seq<AbstractValue>,
    inside: bool,
    s: Seq<FnAppActual>,
) -> bool {
    forall|i: int|
        0 <= i < s.len() ==> match #[trigger] s[i] {
            FnAppActual::Const(_) => true,
            FnAppActual::Var(v) => passes(m, set, inside, v),
        }
}

pub open spec fn atom_passes(m: PhiModel, set: Seq<AbstractValue>, inside: bool, a: Atom) -> bool {
    all_pass(m, set, inside, term_vars(a.lhs()) + term_vars(a.rhs()))
}

pub open spec fn lin_vars(l: Lin) -> Seq<AbstractValue> {
    l.vars.map_values(|e: (AbstractValue, Q)| e.0)
}

/// The state with only the facts all of whose values pass; integer facts are
/// kept as they are where `keep_ints` says so.
pub open spec fn filtered(
    m: PhiModel,
    set: Seq<AbstractValue>,
    inside: bool,
    keep_ints: bool,
) -> PhiModel {
    PhiModel {
        eqs: m.eqs,
        lin: m.lin.filter(
            |e: (AbstractValue, Lin)|
                passes(m, set, inside, e.0) && all_pass(m, set, inside, lin_vars(e.1)),
        ),
        atoms: m.atoms.filter(|a: Atom| atom_passes(m, set, inside, a)),
        terms: m.terms.filter(
            |e: (AbstractValue, TermEq)|
                passes(m, set, inside, e.0) && operand_passes(m, set, inside, e.1.lhs)
                    && operand_passes(m, set, inside, e.1.rhs),
        ),
        itvs: m.itvs.filter(|e: (AbstractValue, CItv)| passes(m, set, inside, e.0)),
        ints: if keep_ints {
            m.ints
        } else {
            m.ints.filter(|v: AbstractValue| passes(m, set, inside, v))
        },
        apps: m.apps.filter(
            |e: (AppKey, AbstractValue)|
                passes(m, set, inside, e.1) && actuals_pass(m, set, inside, e.0.actuals),
        ),
        values: m.values.filter(
            |e: (TermKey, AbstractValue)|
                passes(m, set, inside, e.1) && operand_passes(m, set, inside, e.0.lhs)
                    && operand_passes(m, set, inside, e.0.rhs),
        ),
    }
}

} // verus!
