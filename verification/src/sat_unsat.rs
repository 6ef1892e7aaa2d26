//! Results of constraint propagation.

use vstd::prelude::*;

verus! {

/// Either a result under constraints that may hold together, or the knowledge
/// that the constraints contradict each other.
#[derive(Debug, PartialEq, Eq)]
pub enum SatUnsat<T> {
    Sat(T),
    Unsat,
}

impl<T> SatUnsat<T> {
    pub fn is_sat(&self) -> (b: bool)
        ensures
            b == (self is Sat),
    {
        match self {
            SatUnsat::Sat(_) => true,
            SatUnsat::Unsat => false,
        }
    }

    pub fn is_unsat(&self) -> (b: bool)
        ensures
            b == (self is Unsat),
    {
        !self.is_sat()
    }
}

} // verus!
