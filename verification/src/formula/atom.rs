//! Boolean atoms for the formula solver.
//!
//! An atom is a boolean constraint between two terms.

use super::lin_arith::{is_mapping, mapping, renamed, Valuation};
use super::term::{
    law_term_const, law_term_subst, law_term_translate, term_const, term_lt, term_map, term_subst,
    term_value, term_vars, to_var, Term,
};
use crate::abstract_value::AbstractValue;
use crate::ordered::{Comparison, Dup, OrdKey};
use vstd::prelude::*;

verus! {

/// A boolean constraint between two terms.
#[derive(Debug, PartialEq, Eq, Hash)]
pub enum Atom {
    /// t1 <= t2
    LessEqual(Term, Term),
    /// t1 < t2
    LessThan(Term, Term),
    /// t1 = t2
    Equal(Term, Term),
    /// t1 != t2
    NotEqual(Term, Term),
}

impl Atom {
    pub open spec fn lhs(self) -> Term {
        match self {
            Atom::LessEqual(a, _) => a,
            Atom::LessThan(a, _) => a,
            Atom::Equal(a, _) => a,
            Atom::NotEqual(a, _) => a,
        }
    }

    pub open spec fn rhs(self) -> Term {
        match self {
            Atom::LessEqual(_, b) => b,
            Atom::LessThan(_, b) => b,
            Atom::Equal(_, b) => b,
            Atom::NotEqual(_, b) => b,
        }
    }

    /// The same comparison between other terms.
    pub open spec fn between(self, a: Term, b: Term) -> Atom {
        match self {
            Atom::LessEqual(_, _) => Atom::LessEqual(a, b),
            Atom::LessThan(_, _) => Atom::LessThan(a, b),
            Atom::Equal(_, _) => Atom::Equal(a, b),
            Atom::NotEqual(_, _) => Atom::NotEqual(a, b),
        }
    }

    pub open spec fn rank(self) -> int {
        match self {
            Atom::LessEqual(_, _) => 0,
            Atom::LessThan(_, _) => 1,
            Atom::Equal(_, _) => 2,
            Atom::NotEqual(_, _) => 3,
        }
    }
}

/// The order of atoms: by variant, then by the terms from left to right.
pub open spec fn atom_lt(a: Atom, b: Atom) -> bool {
    a.rank() < b.rank() || (a.rank() == b.rank() && (term_lt(a.lhs(), b.lhs()) || (a.lhs()
        == b.lhs() && term_lt(a.rhs(), b.rhs()))))
}

/// The atom that holds exactly where this one does not.
pub open spec fn atom_negate(a: Atom) -> Atom {
    match a {
        Atom::LessEqual(a, b) => Atom::LessThan(b, a),
        Atom::LessThan(a, b) => Atom::LessEqual(b, a),
        Atom::Equal(a, b) => Atom::NotEqual(a, b),
        Atom::NotEqual(a, b) => Atom::Equal(a, b),
    }
}

pub open spec fn atom_subst(a: Atom, x: AbstractValue, r: Term) -> Atom {
    a.between(term_subst(a.lhs(), x, r), term_subst(a.rhs(), x, r))
}

pub open spec fn atom_translate(a: Atom, f: spec_fn(AbstractValue) -> AbstractValue) -> Atom {
    a.between(term_map(a.lhs(), to_var(f)), term_map(a.rhs(), to_var(f)))
}

/// Whether the comparison holds of two integers.
pub open spec fn atom_on_ints(a: Atom, x: int, y: int) -> bool {
    match a {
        Atom::LessEqual(_, _) => x <= y,
        Atom::LessThan(_, _) => x < y,
        Atom::Equal(_, _) => x == y,
        Atom::NotEqual(_, _) => x != y,
    }
}

/// The truth of an atom that needs no valuation: between equal terms, or
/// between terms that fold to integers. The outer `None` stands for a fold
/// that leaves the 64-bit integers.
pub open spec fn atom_trivial(a: Atom) -> Option<Option<bool>> {
    if a.lhs() == a.rhs() {
        Some(Some(atom_on_ints(a, 0, 0)))
    } else {
        match (term_const(a.lhs()), term_const(a.rhs())) {
            (Some(Some(x)), Some(Some(y))) => Some(Some(atom_on_ints(a, x as int, y as int))),
            (Some(_), Some(_)) => Some(None),
            _ => None,
        }
    }
}

impl View for Atom {
    type V = Atom;

    open spec fn view(&self) -> Atom {
        *self
    }
}

impl Clone for Atom {
    fn clone(&self) -> (r: Self)
        ensures
            r == *self,
    {
        match self {
            Atom::LessEqual(a, b) => Atom::LessEqual(a.clone(), b.clone()),
            Atom::LessThan(a, b) => Atom::LessThan(a.clone(), b.clone()),
            Atom::Equal(a, b) => Atom::Equal(a.clone(), b.clone()),
            Atom::NotEqual(a, b) => Atom::NotEqual(a.clone(), b.clone()),
        }
    }
}

impl Dup for Atom {
    fn dup(&self) -> (r: Self) {
        self.clone()
    }
}

impl OrdKey for Atom {
    open spec fn lt(a: Atom, b: Atom) -> bool {
        atom_lt(a, b)
    }

    proof fn lt_irreflexive(a: Atom) {
        Term::lt_irreflexive(a.lhs());
        Term::lt_irreflexive(a.rhs());
    }

    proof fn lt_transitive(a: Atom, b: Atom, c: Atom) {
        if a.rank() == b.rank() && b.rank() == c.rank() {
            if term_lt(a.lhs(), b.lhs()) && term_lt(b.lhs(), c.lhs()) {
                Term::lt_transitive(a.lhs(), b.lhs(), c.lhs());
            }
            if term_lt(a.rhs(), b.rhs()) && term_lt(b.rhs(), c.rhs()) {
                Term::lt_transitive(a.rhs(), b.rhs(), c.rhs());
            }
        }
    }

    proof fn lt_total(a: Atom, b: Atom) {
        Term::lt_total(a.lhs(), b.lhs());
        Term::lt_total(a.rhs(), b.rhs());
    }

    fn compare(&self, other: &Self) -> (c: Comparison) {
        let ra: i64 = self.position();
        let rb: i64 = other.position();
        if ra < rb {
            return Comparison::Less;
        }
        if ra > rb {
            return Comparison::Greater;
        }
        let (a1, a2) = self.sides();
        let (b1, b2) = other.sides();
        match a1.compare(b1) {
            Comparison::Equal => a2.compare(b2),
            c => c,
        }
    }
}

impl Atom {
    fn position(&self) -> (r: i64)
        ensures
            r == self.rank(),
    {
        match self {
            Atom::LessEqual(_, _) => 0,
            Atom::LessThan(_, _) => 1,
            Atom::Equal(_, _) => 2,
            Atom::NotEqual(_, _) => 3,
        }
    }

    /// The two terms of this atom.
    pub fn sides(&self) -> (r: (&Term, &Term))
        ensures
            *r.0 == self.lhs(),
            *r.1 == self.rhs(),
    {
        match self {
            Atom::LessEqual(a, b) => (a, b),
            Atom::LessThan(a, b) => (a, b),
            Atom::Equal(a, b) => (a, b),
            Atom::NotEqual(a, b) => (a, b),
        }
    }

    /// The same comparison between other terms.
    pub fn with_sides(&self, a: Term, b: Term) -> (r: Atom)
        ensures
            r == self.between(a, b),
    {
        match self {
            Atom::LessEqual(_, _) => Atom::LessEqual(a, b),
            Atom::LessThan(_, _) => Atom::LessThan(a, b),
            Atom::Equal(_, _) => Atom::Equal(a, b),
            Atom::NotEqual(_, _) => Atom::NotEqual(a, b),
        }
    }

    /// Negate this atom.
    pub fn negate(&self) -> (r: Self)
        ensures
            r == atom_negate(*self),
    {
        match self {
            Atom::LessEqual(a, b) => Atom::LessThan(b.clone(), a.clone()),
            Atom::LessThan(a, b) => Atom::LessEqual(b.clone(), a.clone()),
            Atom::Equal(a, b) => Atom::NotEqual(a.clone(), b.clone()),
            Atom::NotEqual(a, b) => Atom::Equal(a.clone(), b.clone()),
        }
    }

    /// Substitute a variable with a term in both sides.
    pub fn subst_var(&self, old_var: AbstractValue, replacement: &Term) -> (r: Self)
        ensures
            r == atom_subst(*self, old_var, *replacement),
    {
        let (a, b) = self.sides();
        self.with_sides(a.subst_var(old_var, replacement), b.subst_var(old_var, replacement))
    }

    /// Check if this atom is trivially true or false with constant terms.
    pub fn is_trivially_true(&self) -> (r: Option<bool>)
        requires
            atom_trivial(*self) is Some,
        ensures
            Some(r) == atom_trivial(*self),
    {
        let (a, b) = self.sides();
        if a.equals(b) {
            return Some(matches!(self, Atom::Equal(..) | Atom::LessEqual(..)));
        }
        match (a.as_const(), b.as_const()) {
            (Some(x), Some(y)) => Some(
                match self {
                    Atom::LessEqual(_, _) => x <= y,
                    Atom::LessThan(_, _) => x < y,
                    Atom::Equal(_, _) => x == y,
                    Atom::NotEqual(_, _) => x != y,
                },
            ),
            _ => None,
        }
    }

    /// Translate all variables using a mapping function.
    pub fn translate<F: Fn(AbstractValue) -> AbstractValue>(&self, f: F) -> (r: Self)
        requires
            is_mapping(f),
        ensures
            r == atom_translate(*self, mapping(f)),
    {
        let (a, b) = self.sides();
        self.with_sides(a.translate(&f), b.translate(&f))
    }

    /// Collect all variables in both sides of this atom.
    pub fn all_vars(&self) -> (r: Vec<AbstractValue>)
        ensures
            r@ == term_vars(self.lhs()) + term_vars(self.rhs()),
    {
        let (a, b) = self.sides();
        let mut vars = a.vars();
        b.collect_vars(&mut vars);
        vars
    }

    /// How the atom is shown.
    pub open spec fn text(self) -> Seq<char> {
        self.lhs().text() + match self {
            Atom::LessEqual(_, _) => " ≤ "@,
            Atom::LessThan(_, _) => " < "@,
            Atom::Equal(_, _) => " = "@,
            Atom::NotEqual(_, _) => " ≠ "@,
        } + self.rhs().text()
    }

    pub fn to_string(&self) -> (s: String)
        ensures
            s@ == self.text(),
    {
        let (a, b) = self.sides();
        let mut s = a.to_string();
        match self {
            Atom::LessEqual(_, _) => s.append(" ≤ "),
            Atom::LessThan(_, _) => s.append(" < "),
            Atom::Equal(_, _) => s.append(" = "),
            Atom::NotEqual(_, _) => s.append(" ≠ "),
        }
        b.push_text(&mut s);
        s
    }
}

/// Whether the atom holds in a valuation.
pub open spec fn atom_holds(a: Atom, rho: Valuation) -> bool {
    let x = term_value(a.lhs(), rho);
    let y = term_value(a.rhs(), rho);
    match a {
        Atom::LessEqual(_, _) => x <= y,
        Atom::LessThan(_, _) => x < y,
        Atom::Equal(_, _) => x == y,
        Atom::NotEqual(_, _) => x != y,
    }
}

/// The negation of an atom holds exactly where the atom does not, and
/// negating twice gives the atom back.
pub proof fn law_negate(a: Atom, rho: Valuation)
    ensures
        atom_holds(atom_negate(a), rho) == !atom_holds(a, rho),
        atom_negate(atom_negate(a)) == a,
{
}

/// Substituting for a variable a term of its value leaves the truth of an
/// atom.
pub proof fn law_atom_subst(a: Atom, x: AbstractValue, r: Term, rho: Valuation)
    requires
        rho(x) == term_value(r, rho),
    ensures
        atom_holds(atom_subst(a, x, r), rho) == atom_holds(a, rho),
{
    law_term_subst(a.lhs(), x, r, rho);
    law_term_subst(a.rhs(), x, r, rho);
}

/// Translating variables translates them in every valuation.
pub proof fn law_atom_translate(
    a: Atom,
    f: spec_fn(AbstractValue) -> AbstractValue,
    rho: Valuation,
)
    ensures
        atom_holds(atom_translate(a, f), rho) == atom_holds(a, renamed(rho, f)),
{
    law_term_translate(a.lhs(), f, rho);
    law_term_translate(a.rhs(), f, rho);
}

/// An atom found true holds in every valuation, one found false in none.
pub proof fn law_atom_trivial(a: Atom, rho: Valuation)
    ensures
        atom_trivial(a) matches Some(Some(b)) ==> atom_holds(a, rho) == b,
{
    law_term_const(a.lhs(), rho);
    law_term_const(a.rhs(), rho);
}

} // verus!
