//! What a run of a call ends in, and when one execution state stands for another.

use super::call_run::{
    answered, answers, dispatched, started, CallAnswer, CallEnd, CallNext, CallPhase, CallQuestion,
    CallRun,
};
use super::calls::{is_pointer_call, CalleeFacts};
use crate::diagnostic::Diagnostic;
use crate::execution_domain::{
    accessed, diagnostics_match, fast_equal, subsumed, ExecutionKind, ExecutionV, StateComparison,
};
use crate::key::Keyed;
use crate::sil::Procname;
use crate::state_same::same_state;
use vstd::prelude::*;

verus! {

/// A run starts with the initializer where there is one. A virtual call with arguments
/// looks at its receiver next, any other at what is known of its callee, but a function
/// pointer at what its argument points to.
pub proof fn law_run_starts(r: CallRun, p: Procname)
    ensures
        started(r, Some(p)).1 == CallNext::Ask(CallQuestion::Initializer(p)),
        started(r, None) == dispatched(r),
        r.callee is Some && r.is_virtual && r.has_arguments ==> dispatched(r).1 == CallNext::Ask(
            CallQuestion::Receiver,
        ),
        r.callee is None ==> dispatched(r).1 == CallNext::Do(CallEnd::Transfer),
        r.callee matches Some(callee) ==> !(r.is_virtual && r.has_arguments) ==> {
            &&& !is_pointer_call(callee) ==> dispatched(r).1 == CallNext::Ask(
                CallQuestion::Facts(callee),
            )
            &&& is_pointer_call(callee) && r.has_arguments ==> dispatched(r).1 == CallNext::Ask(
                CallQuestion::Pointer,
            )
            &&& is_pointer_call(callee) && !r.has_arguments ==> dispatched(r).1 == CallNext::Do(
                CallEnd::FreshResult,
            )
        },
{
}

/// What a run does in the end it does with its callee, or with the function that its
/// pointer leads to, and it forgets neither its caller nor its arguments.
pub proof fn law_run_is_about_its_callee(r: CallRun, facts: CalleeFacts, target: Procname)
    requires
        r.wf(),
    ensures
        r.phase is Callee ==> match answered(r, CallAnswer::Facts(facts)).1 {
            CallNext::Do(CallEnd::RunModel(p)) => Some(p) == r.callee && facts.has_model,
            CallNext::Do(CallEnd::ApplySummary(p)) => Some(p) == r.callee && facts.has_summary,
            CallNext::Do(CallEnd::CallUnknown(p)) => Some(p) == r.callee && p.key()
                == r.caller.key(),
            CallNext::Do(CallEnd::Transfer) => true,
            _ => false,
        },
        r.phase == CallPhase::Pointee(target) ==> match answered(r, CallAnswer::Facts(facts)).1 {
            CallNext::Do(CallEnd::RunModel(p)) => p == target && facts.has_model,
            CallNext::Do(CallEnd::ApplySummary(p)) => p == target && facts.has_summary,
            CallNext::Do(CallEnd::CallUnknown(p)) => p == target && !facts.has_model
                && !facts.has_summary,
            _ => false,
        },
        r.phase is Dereference ==> answered(r, CallAnswer::Dereferenced(false)).1 == CallNext::Do(
            CallEnd::Abort,
        ) && answered(r, CallAnswer::Dereferenced(true)).1 == CallNext::Do(CallEnd::HavocArguments)
            && answered(r, CallAnswer::Dereferenced(true)).0.needs_type,
        r.phase is Initializer ==> answered(r, CallAnswer::Initialized(0)) == dispatched(r) && (
        forall|n: usize|
            n > 0 ==> (#[trigger] answered(r, CallAnswer::Initialized(n))).1 == CallNext::Do(
                CallEnd::TransferInitialized,
            )),
        forall|a: CallAnswer|
            answers(r.phase, a) ==> (#[trigger] answered(r, a)).0.caller == r.caller && answered(
                r,
                a,
            ).0.has_arguments == r.has_arguments,
{
}

/// A state stands for another value for value only if both end in the same way, hold
/// the same and have the same error, at the same place and for the same reason.
pub proof fn law_equal_executions(a: ExecutionV, b: ExecutionV)
    ensures
        fast_equal(a, b) ==> a.kind == b.kind && same_state(a.state, b.state),
        fast_equal(a, b) && a.diagnostic is Some && b.diagnostic is Some ==> diagnostics_match(
            a.diagnostic->0,
            b.diagnostic->0,
        ) && (a.kind == ExecutionKind::LatentInvalid ==> accessed(a.diagnostic->0) == accessed(
            b.diagnostic->0,
        )),
        a.kind == b.kind && same_state(a.state, b.state) && a.diagnostic is None ==> fast_equal(
            a,
            b,
        ),
{
}

/// Errors that are the same are of the same type and shown at the same place.
pub proof fn law_matching_errors(x: Diagnostic, y: Diagnostic)
    ensures
        diagnostics_match(x, y) ==> x.location().key() == y.location().key(),
        diagnostics_match(x, y) ==> (x is AccessToInvalidAddress <==> y is AccessToInvalidAddress)
            && (x is MemoryLeak <==> y is MemoryLeak),
        x is AccessToInvalidAddress && y is AccessToInvalidAddress && diagnostics_match(x, y)
            ==> x->invalidation.key() == y->invalidation.key() && x->access_history.key()
            == y->access_history.key() && x->invalidation_history.key()
            == y->invalidation_history.key(),
        diagnostics_match(x, y) ==> diagnostics_match(y, x),
{
}

/// A state covers another only if it equals it value for value, or the comparison up to
/// renaming says that they are equivalent and they end alike.
pub proof fn law_covered(a: ExecutionV, b: ExecutionV, c: StateComparison)
    ensures
        subsumed(a, b, c) ==> a.kind == b.kind,
        subsumed(a, b, c) && !c.states_equivalent && !c.accesses_equivalent ==> fast_equal(a, b) || (
        a.kind == ExecutionKind::LatentInvalid && a.diagnostic is Some && b.diagnostic is Some
            && accessed(a.diagnostic->0) is None),
        c.states_equivalent && a.kind == b.kind && a.diagnostic is None && b.diagnostic is None
            ==> subsumed(a, b, c),
        subsumed(a, b, c) && a.diagnostic is Some && b.diagnostic is Some ==> diagnostics_match(
            a.diagnostic->0,
            b.diagnostic->0,
        ),
{
}

} // verus!
