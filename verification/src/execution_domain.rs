//! Execution domain: the possible states of an analysis path.

use crate::abductive::AbductiveDomain;
use crate::abductive_model::AbductiveV;
use crate::abstract_value::AbstractValue;
use crate::diagnostic::Diagnostic;
use crate::key::{same_key, Keyed};
use crate::state_same::{law_same_state, same_state};
use vstd::prelude::*;

verus! {

/// The state of an analysis path after executing an instruction.
#[derive(Debug, PartialEq, Eq)]
pub enum ExecutionDomain {
    /// Normal execution continues.
    ContinueProgram(AbductiveDomain),
    /// A definite (manifest) error was found; analysis of this path aborts.
    AbortProgram { state: Box<AbductiveDomain>, diagnostic: Box<Diagnostic> },
    /// A latent error: the path condition depends on caller-provided values.
    /// Kept in summaries so callers can check if the error manifests.
    LatentAbortProgram { state: Box<AbductiveDomain>, diagnostic: Box<Diagnostic> },
    /// A latent invalid access carried interprocedurally until a caller can
    /// prove the accessed address is invalid in its own context.
    LatentInvalidAccess { state: Box<AbductiveDomain>, diagnostic: Box<Diagnostic> },
    /// The procedure exits normally (return).
    ExitProgram(AbductiveDomain),
    /// An exception was raised.
    ExceptionRaised(AbductiveDomain),
}

/// How a path ends.
#[derive(Clone, Copy, Debug, PartialEq, Eq, Structural)]
pub enum ExecutionKind {
    Continue,
    Abort,
    LatentAbort,
    LatentInvalid,
    Exit,
    Exception,
}

/// What an execution state stands for.
#[verifier::ext_equal]
pub struct ExecutionV {
    pub kind: ExecutionKind,
    pub state: AbductiveV,
    /// The error that was found, for a path that ends in one.
    pub diagnostic: Option<Diagnostic>,
}

impl View for ExecutionDomain {
    type V = ExecutionV;

    open spec fn view(&self) -> ExecutionV {
        match self {
            ExecutionDomain::ContinueProgram(s) => ExecutionV {
                kind: ExecutionKind::Continue,
                state: s@,
                diagnostic: None,
            },
            ExecutionDomain::AbortProgram { state, diagnostic } => ExecutionV {
                kind: ExecutionKind::Abort,
                state: state@,
                diagnostic: Some(**diagnostic),
            },
            ExecutionDomain::LatentAbortProgram { state, diagnostic } => ExecutionV {
                kind: ExecutionKind::LatentAbort,
                state: state@,
                diagnostic: Some(**diagnostic),
            },
            ExecutionDomain::LatentInvalidAccess { state, diagnostic } => ExecutionV {
                kind: ExecutionKind::LatentInvalid,
                state: state@,
                diagnostic: Some(**diagnostic),
            },
            ExecutionDomain::ExitProgram(s) => ExecutionV {
                kind: ExecutionKind::Exit,
                state: s@,
                diagnostic: None,
            },
            ExecutionDomain::ExceptionRaised(s) => ExecutionV {
                kind: ExecutionKind::Exception,
                state: s@,
                diagnostic: None,
            },
        }
    }
}

impl Clone for ExecutionDomain {
    fn clone(&self) -> (r: Self)
        ensures
            r@ == self@,
    {
        match self {
            ExecutionDomain::ContinueProgram(s) => ExecutionDomain::ContinueProgram(s.clone()),
            ExecutionDomain::AbortProgram { state, diagnostic } => ExecutionDomain::AbortProgram {
                state: Box::new((**state).clone()),
                diagnostic: Box::new((**diagnostic).clone()),
            },
            ExecutionDomain::LatentAbortProgram { state, diagnostic } => {
                ExecutionDomain::LatentAbortProgram {
                    state: Box::new((**state).clone()),
                    diagnostic: Box::new((**diagnostic).clone()),
                }
            },
            ExecutionDomain::LatentInvalidAccess { state, diagnostic } => {
                ExecutionDomain::LatentInvalidAccess {
                    state: Box::new((**state).clone()),
                    diagnostic: Box::new((**diagnostic).clone()),
                }
            },
            ExecutionDomain::ExitProgram(s) => ExecutionDomain::ExitProgram(s.clone()),
            ExecutionDomain::ExceptionRaised(s) => ExecutionDomain::ExceptionRaised(s.clone()),
        }
    }
}

/// What comparing two states up to a renaming of their abstract values gave.
#[derive(Clone, Copy, Debug, PartialEq, Eq, Structural)]
pub struct StateComparison {
    /// A renaming takes one state to the other.
    pub states_equivalent: bool,
    /// A renaming takes one state to the other, and the address that one
    /// diagnostic accesses to the address that the other accesses.
    pub accesses_equivalent: bool,
}

/// Two errors are the same, wherever their addresses are.
pub open spec fn diagnostics_match(a: Diagnostic, b: Diagnostic) -> bool {
    match (a, b) {
        (
            Diagnostic::AccessToInvalidAddress {
                invalidation: i1,
                access_location: l1,
                trace_access_location: t1,
                access_history: a1,
                invalidation_history: h1,
                ..
            },
            Diagnostic::AccessToInvalidAddress {
                invalidation: i2,
                access_location: l2,
                trace_access_location: t2,
                access_history: a2,
                invalidation_history: h2,
                ..
            },
        ) => t1 is None && t2 is None && i1.key() == i2.key() && l1.key() == l2.key() && a1.key()
            == a2.key() && h1.key() == h2.key(),
        (
            Diagnostic::MemoryLeak { allocator: a1, allocation_location: l1, .. },
            Diagnostic::MemoryLeak { allocator: a2, allocation_location: l2, .. },
        ) => a1.key() == a2.key() && l1.key() == l2.key(),
        (Diagnostic::RetainCycle { location: l1 }, Diagnostic::RetainCycle { location: l2 }) =>
            l1.key() == l2.key(),
        _ => false,
    }
}

/// The address that an invalid access concerns.
pub open spec fn accessed(d: Diagnostic) -> Option<AbstractValue> {
    match d {
        Diagnostic::AccessToInvalidAddress { addr, .. } => Some(addr),
        _ => None,
    }
}

/// Two latent invalid accesses are the same, of the same address.
pub open spec fn accesses_match(a: Diagnostic, b: Diagnostic) -> bool {
    diagnostics_match(a, b) && accessed(a) == accessed(b)
}

/// Two latent invalid accesses are the same up to a renaming.
pub open spec fn accesses_match_up_to(a: Diagnostic, b: Diagnostic, c: StateComparison) -> bool {
    diagnostics_match(a, b) && (accessed(a) is Some ==> c.accesses_equivalent)
}

/// The two execution states are equal, value for value.
pub open spec fn fast_equal(a: ExecutionV, b: ExecutionV) -> bool {
    a.kind == b.kind && same_state(a.state, b.state) && match (a.diagnostic, b.diagnostic) {
        (Some(x), Some(y)) => if a.kind == ExecutionKind::LatentInvalid {
            accesses_match(x, y)
        } else {
            diagnostics_match(x, y)
        },
        _ => true,
    }
}

/// The two execution states are equal up to a renaming, where `c` is what
/// comparing their states gave.
pub open spec fn subsumed(a: ExecutionV, b: ExecutionV, c: StateComparison) -> bool {
    fast_equal(a, b) || (a.kind == b.kind && match (a.diagnostic, b.diagnostic) {
        (Some(x), Some(y)) => if a.kind == ExecutionKind::LatentInvalid {
            accesses_match_up_to(x, y, c)
        } else {
            c.states_equivalent && diagnostics_match(x, y)
        },
        _ => c.states_equivalent,
    })
}

fn options_absent(a: &Diagnostic, b: &Diagnostic) -> (r: bool)
    ensures
        r == (accessed(*a) is Some && accessed(*b) is Some && a->trace_access_location is None
            && b->trace_access_location is None),
{
    match (a, b) {
        (
            Diagnostic::AccessToInvalidAddress { trace_access_location: t1, .. },
            Diagnostic::AccessToInvalidAddress { trace_access_location: t2, .. },
        ) => t1.is_none() && t2.is_none(),
        _ => false,
    }
}

/// Whether two errors are the same, wherever their addresses are.
pub fn diagnostics_compatible(lhs: &Diagnostic, rhs: &Diagnostic) -> (r: bool)
    ensures
        r == diagnostics_match(*lhs, *rhs),
{
    match (lhs, rhs) {
        (
            Diagnostic::AccessToInvalidAddress {
                invalidation: i1,
                access_location: l1,
                access_history: a1,
                invalidation_history: h1,
                ..
            },
            Diagnostic::AccessToInvalidAddress {
                invalidation: i2,
                access_location: l2,
                access_history: a2,
                invalidation_history: h2,
                ..
            },
        ) => options_absent(lhs, rhs) && same_key(i1, i2) && same_key(l1, l2) && same_key(a1, a2)
            && same_key(h1, h2),
        (
            Diagnostic::MemoryLeak { allocator: a1, allocation_location: l1, .. },
            Diagnostic::MemoryLeak { allocator: a2, allocation_location: l2, .. },
        ) => same_key(a1, a2) && same_key(l1, l2),
        (Diagnostic::RetainCycle { location: l1 }, Diagnostic::RetainCycle { location: l2 }) => {
            same_key(l1, l2)
        },
        _ => false,
    }
}

fn latent_invalid_access_diagnostics_compatible(lhs: &Diagnostic, rhs: &Diagnostic) -> (r: bool)
    ensures
        r == accesses_match(*lhs, *rhs),
{
    match (lhs, rhs) {
        (
            Diagnostic::AccessToInvalidAddress { addr: a1, .. },
            Diagnostic::AccessToInvalidAddress { addr: a2, .. },
        ) => *a1 == *a2 && diagnostics_compatible(lhs, rhs),
        _ => diagnostics_compatible(lhs, rhs),
    }
}

fn diagnostics_compatible_semantic(
    lhs: &Diagnostic,
    rhs: &Diagnostic,
    comparison: StateComparison,
) -> (r: bool)
    ensures
        r == accesses_match_up_to(*lhs, *rhs, comparison),
{
    match (lhs, rhs) {
        (
            Diagnostic::AccessToInvalidAddress { .. },
            Diagnostic::AccessToInvalidAddress { .. },
        ) => comparison.accesses_equivalent && diagnostics_compatible(lhs, rhs),
        _ => diagnostics_compatible(lhs, rhs),
    }
}

impl ExecutionDomain {
    /// How the path ends.
    pub fn kind(&self) -> (r: ExecutionKind)
        ensures
            r == self@.kind,
    {
        match self {
            ExecutionDomain::ContinueProgram(_) => ExecutionKind::Continue,
            ExecutionDomain::AbortProgram { .. } => ExecutionKind::Abort,
            ExecutionDomain::LatentAbortProgram { .. } => ExecutionKind::LatentAbort,
            ExecutionDomain::LatentInvalidAccess { .. } => ExecutionKind::LatentInvalid,
            ExecutionDomain::ExitProgram(_) => ExecutionKind::Exit,
            ExecutionDomain::ExceptionRaised(_) => ExecutionKind::Exception,
        }
    }

    /// Is this a continuing (non-error, non-exit) state?
    pub fn is_continue(&self) -> (b: bool)
        ensures
            b == (self@.kind == ExecutionKind::Continue),
    {
        matches!(self, ExecutionDomain::ContinueProgram(_))
    }

    /// Extract the abstract state, regardless of variant.
    pub fn get_astate(&self) -> (r: &AbductiveDomain)
        ensures
            r@ == self@.state,
    {
        match self {
            ExecutionDomain::ContinueProgram(s) => s,
            ExecutionDomain::ExitProgram(s) => s,
            ExecutionDomain::ExceptionRaised(s) => s,
            ExecutionDomain::AbortProgram { state, .. } => state,
            ExecutionDomain::LatentAbortProgram { state, .. } => state,
            ExecutionDomain::LatentInvalidAccess { state, .. } => state,
        }
    }

    /// The error that was found, for a path that ends in one.
    pub fn get_diagnostic(&self) -> (r: Option<&Diagnostic>)
        ensures
            self@.diagnostic == (match r {
                Some(d) => Some(*d),
                None => None,
            }),
    {
        match self {
            ExecutionDomain::AbortProgram { diagnostic, .. } => Some(diagnostic),
            ExecutionDomain::LatentAbortProgram { diagnostic, .. } => Some(diagnostic),
            ExecutionDomain::LatentInvalidAccess { diagnostic, .. } => Some(diagnostic),
            _ => None,
        }
    }

    /// A cheap structural comparison.
    pub fn equal_fast(&self, rhs: &Self) -> (b: bool)
        ensures
            b == fast_equal(self@, rhs@),
    {
        if self.kind() != rhs.kind() {
            return false;
        }
        if !self.get_astate().same(rhs.get_astate()) {
            return false;
        }
        match (self.get_diagnostic(), rhs.get_diagnostic()) {
            (Some(lhs_diag), Some(rhs_diag)) => match self.kind() {
                ExecutionKind::LatentInvalid => latent_invalid_access_diagnostics_compatible(
                    lhs_diag,
                    rhs_diag,
                ),
                _ => diagnostics_compatible(lhs_diag, rhs_diag),
            },
            _ => true,
        }
    }

    /// Whether `rhs` covers this execution state, given what comparing the two
    /// states up to renaming gave.
    pub fn leq(&self, rhs: &Self, comparison: StateComparison) -> (b: bool)
        ensures
            b == subsumed(self@, rhs@, comparison),
    {
        if self.equal_fast(rhs) {
            return true;
        }
        if self.kind() != rhs.kind() {
            return false;
        }
        match (self.get_diagnostic(), rhs.get_diagnostic()) {
            (Some(lhs_diag), Some(rhs_diag)) => match self.kind() {
                ExecutionKind::LatentInvalid => diagnostics_compatible_semantic(
                    lhs_diag,
                    rhs_diag,
                    comparison,
                ),
                _ => comparison.states_equivalent && diagnostics_compatible(lhs_diag, rhs_diag),
            },
            _ => comparison.states_equivalent,
        }
    }

    /// Whether every execution state of `lhs` is covered by one of `rhs`, given
    /// what comparing each pair of states up to renaming gave.
    pub fn disjunctive_leq_subset(
        lhs: &Vec<ExecutionDomain>,
        rhs: &Vec<ExecutionDomain>,
        comparisons: &Vec<Vec<StateComparison>>,
    ) -> (b: bool)
        requires
            comparisons@.len() == lhs@.len(),
            forall|i: int|
                0 <= i < lhs@.len() ==> (#[trigger] comparisons@[i])@.len() == rhs@.len(),
        ensures
            b == (forall|i: int|
                0 <= i < lhs@.len() ==> covered(#[trigger] lhs@[i], rhs@, comparisons@[i]@)),
    {
        let mut i: usize = 0;
        while i < lhs.len()
            invariant
                comparisons@.len() == lhs@.len(),
                forall|k: int|
                    0 <= k < lhs@.len() ==> (#[trigger] comparisons@[k])@.len() == rhs@.len(),
                i <= lhs@.len(),
                forall|k: int|
                    0 <= k < i ==> covered(#[trigger] lhs@[k], rhs@, comparisons@[k]@),
            decreases lhs@.len() - i,
        {
            if !lhs[i].is_covered(rhs, &comparisons[i]) {
                assert(!covered(lhs@[i as int], rhs@, comparisons@[i as int]@));
                return false;
            }
            i = i + 1;
        }
        true
    }

    fn is_covered(
        &self,
        rhs: &Vec<ExecutionDomain>,
        comparisons: &Vec<StateComparison>,
    ) -> (b: bool)
        requires
            comparisons@.len() == rhs@.len(),
        ensures
            b == covered(*self, rhs@, comparisons@),
    {
        let mut j: usize = 0;
        while j < rhs.len()
            invariant
                comparisons@.len() == rhs@.len(),
                j <= rhs@.len(),
                forall|k: int|
                    0 <= k < j ==> !subsumed(self@, (#[trigger] rhs@[k])@, comparisons@[k]),
            decreases rhs@.len() - j,
        {
            if self.leq(&rhs[j], comparisons[j]) {
                assert(subsumed(self@, rhs@[j as int]@, comparisons@[j as int]));
                return true;
            }
            j = j + 1;
        }
        false
    }
}

/// Some execution state of `rhs` covers `l`.
pub open spec fn covered(
    l: ExecutionDomain,
    rhs: Seq<ExecutionDomain>,
    comparisons: Seq<StateComparison>,
) -> bool {
    exists|j: int| 0 <= j < rhs.len() && subsumed(l@, (#[trigger] rhs[j])@, comparisons[j])
}

/// The diagnostic does not say where the access is traced to.
pub open spec fn untraced(d: Diagnostic) -> bool {
    d matches Diagnostic::AccessToInvalidAddress { trace_access_location, .. }
        ==> trace_access_location is None
}

/// An execution state covers itself and every state equal to it, whatever the
/// comparison up to renaming says. (An access that is traced to another location
/// is never considered the same.)
pub proof fn law_leq_reflexive(a: ExecutionV, c: StateComparison)
    requires
        a.diagnostic matches Some(d) ==> untraced(d),
    ensures
        fast_equal(a, a),
        subsumed(a, a, c),
{
    law_same_state(a.state, a.state, a.state);
}

/// Being equal value for value is symmetric and transitive.
pub proof fn law_equal_fast(a: ExecutionV, b: ExecutionV, c: ExecutionV)
    requires
        fast_equal(a, b),
    ensures
        (b.diagnostic is Some) == (a.diagnostic is Some) ==> fast_equal(b, a),
        ({
            &&& fast_equal(b, c)
            &&& (a.diagnostic is Some) == (b.diagnostic is Some)
            &&& (b.diagnostic is Some) == (c.diagnostic is Some)
        }) ==> fast_equal(a, c),
{
    law_same_state(a.state, b.state, c.state);
}

/// States that end differently never cover each other, and a state that ends in
/// an error is covered only by one that ends in the same error.
pub proof fn law_leq_keeps_outcome(a: ExecutionV, b: ExecutionV, c: StateComparison)
    requires
        subsumed(a, b, c),
    ensures
        a.kind == b.kind,
        a.diagnostic is Some && b.diagnostic is Some ==> diagnostics_match(
            a.diagnostic->0,
            b.diagnostic->0,
        ),
{
}

} // verus!
