//! The course of a call: what to find out about an instruction, in which order,
//! and what to do with it in the end.
//!
//! The questions are put to the program around the library, which evaluates
//! expressions and looks procedures up; each answer leads to the next question or
//! to what is to be done.

use super::calls::{
    action_of_call, call_action, is_pointer_call, redirects_to, resolve_virtual_call_target,
    virtual_target, CallAction, CalleeFacts,
};
use crate::key::Keyed;
use crate::sil::{Procname, Typ};
use vstd::prelude::*;

verus! {

/// Where the run of an instruction stands.
#[derive(Debug)]
pub enum CallPhase {
    /// The initializer of a global variable was asked for.
    Initializer,
    /// The type of the receiver was asked for.
    Receiver,
    /// Whether the method found for the receiver can be called was asked for.
    Target(Procname),
    /// What is known of the callee was asked for.
    Callee,
    /// What the function pointer points to was asked for.
    Pointer,
    /// What is known of the function behind the pointer was asked for.
    Pointee(Procname),
    /// Whether the function pointer can be read was asked for.
    Dereference,
    Finished,
}

/// What to find out.
#[derive(Debug)]
pub enum CallQuestion {
    /// In how many states the initializer ends normally.
    Initializer(Procname),
    /// The dynamic type of the receiver.
    Receiver,
    /// What is known of a procedure.
    Facts(Procname),
    /// Which function the pointer points to.
    Pointer,
    /// Whether reading the pointer finds no error.
    Dereference,
}

/// What to do in the end.
#[derive(Debug)]
pub enum CallEnd {
    /// Run the instruction in every state that the initializer ends in.
    TransferInitialized,
    /// Run the instruction.
    Transfer,
    /// Run the model of a procedure.
    RunModel(Procname),
    /// Apply the summary of a procedure.
    ApplySummary(Procname),
    /// Call a procedure as an unknown one.
    CallUnknown(Procname),
    /// Give a fresh result.
    FreshResult,
    /// End with the errors found on reading the pointer.
    Abort,
    /// Give a fresh result, and make what the arguments lead to unknown.
    HavocArguments,
}

/// What comes next.
#[derive(Debug)]
pub enum CallNext {
    Ask(CallQuestion),
    Do(CallEnd),
}

/// The answer to a question.
#[derive(Debug)]
pub enum CallAnswer {
    Initialized(usize),
    DynamicType(Option<Typ>),
    Facts(CalleeFacts),
    Pointee(Option<Procname>),
    Dereferenced(bool),
}

/// The run of an instruction.
#[derive(Debug)]
pub struct CallRun {
    pub caller: Procname,
    /// The procedure that the instruction calls, if it is a call of a known one.
    pub callee: Option<Procname>,
    pub is_virtual: bool,
    pub has_arguments: bool,
    /// The dynamic type of the receiver, or of the pointer, is asked for from the
    /// caller of the analysed procedure.
    pub needs_type: bool,
    pub phase: CallPhase,
}

/// `r`, at the given phase.
pub open spec fn at_phase(r: CallRun, phase: CallPhase) -> CallRun {
    CallRun { phase, ..r }
}

/// What a run does with its callee: a call through a pointer is resolved first.
pub open spec fn direct(r: CallRun) -> (CallRun, CallNext) {
    match r.callee {
        None => (at_phase(r, CallPhase::Finished), CallNext::Do(CallEnd::Transfer)),
        Some(callee) => if !is_pointer_call(callee) {
            (at_phase(r, CallPhase::Callee), CallNext::Ask(CallQuestion::Facts(callee)))
        } else if r.has_arguments {
            (at_phase(r, CallPhase::Pointer), CallNext::Ask(CallQuestion::Pointer))
        } else {
            (at_phase(r, CallPhase::Finished), CallNext::Do(CallEnd::FreshResult))
        },
    }
}

/// What a run does with its call: the receiver of a virtual one is looked at first.
pub open spec fn dispatched(r: CallRun) -> (CallRun, CallNext) {
    if r.callee is Some && r.is_virtual && r.has_arguments {
        (at_phase(r, CallPhase::Receiver), CallNext::Ask(CallQuestion::Receiver))
    } else {
        direct(r)
    }
}

/// What a run starts with: the initializer of a global variable comes first.
pub open spec fn started(r: CallRun, initializer: Option<Procname>) -> (CallRun, CallNext) {
    match initializer {
        Some(p) => (
            at_phase(r, CallPhase::Initializer),
            CallNext::Ask(CallQuestion::Initializer(p)),
        ),
        None => dispatched(r),
    }
}

/// What is done with a callee of which the given things are known.
pub open spec fn end_of_call(caller: Procname, callee: Procname, facts: CalleeFacts) -> CallEnd {
    match action_of_call(caller, callee, facts) {
        CallAction::RunModel => CallEnd::RunModel(callee),
        CallAction::ApplySummary => CallEnd::ApplySummary(callee),
        CallAction::CallUnknown => CallEnd::CallUnknown(callee),
        _ => CallEnd::Transfer,
    }
}

/// What is done with a function behind a pointer of which the given things are
/// known: without a model and a summary it is called as an unknown one.
pub open spec fn end_of_pointer_call(target: Procname, facts: CalleeFacts) -> CallEnd {
    if facts.has_model {
        CallEnd::RunModel(target)
    } else if facts.has_summary {
        CallEnd::ApplySummary(target)
    } else {
        CallEnd::CallUnknown(target)
    }
}

/// The answer is one to the question that was asked.
pub open spec fn answers(phase: CallPhase, answer: CallAnswer) -> bool {
    match phase {
        CallPhase::Initializer => answer is Initialized,
        CallPhase::Receiver => answer is DynamicType,
        CallPhase::Target(_) | CallPhase::Callee | CallPhase::Pointee(_) => answer is Facts,
        CallPhase::Pointer => answer is Pointee,
        CallPhase::Dereference => answer is Dereferenced,
        CallPhase::Finished => false,
    }
}

/// What a run does with an answer.
pub open spec fn answered(r: CallRun, answer: CallAnswer) -> (CallRun, CallNext) {
    match (r.phase, answer) {
        (CallPhase::Initializer, CallAnswer::Initialized(n)) => if n > 0 {
            (at_phase(r, CallPhase::Finished), CallNext::Do(CallEnd::TransferInitialized))
        } else {
            dispatched(r)
        },
        (CallPhase::Receiver, CallAnswer::DynamicType(typ)) => match virtual_target(
            r.callee->0,
            typ,
        ) {
            Some(target) => (
                at_phase(r, CallPhase::Target(target)),
                CallNext::Ask(CallQuestion::Facts(target)),
            ),
            None => direct(CallRun { needs_type: true, ..r }),
        },
        (CallPhase::Target(target), CallAnswer::Facts(facts)) => if facts.has_summary
            || facts.has_model || target.key() == r.caller.key() {
            direct(CallRun { callee: Some(target), is_virtual: false, ..r })
        } else {
            direct(CallRun { needs_type: true, ..r })
        },
        (CallPhase::Callee, CallAnswer::Facts(facts)) => (
            at_phase(r, CallPhase::Finished),
            CallNext::Do(end_of_call(r.caller, r.callee->0, facts)),
        ),
        (CallPhase::Pointer, CallAnswer::Pointee(Some(target))) => (
            at_phase(r, CallPhase::Pointee(target)),
            CallNext::Ask(CallQuestion::Facts(target)),
        ),
        (CallPhase::Pointer, CallAnswer::Pointee(None)) => (
            at_phase(r, CallPhase::Dereference),
            CallNext::Ask(CallQuestion::Dereference),
        ),
        (CallPhase::Pointee(target), CallAnswer::Facts(facts)) => (
            at_phase(r, CallPhase::Finished),
            CallNext::Do(end_of_pointer_call(target, facts)),
        ),
        (CallPhase::Dereference, CallAnswer::Dereferenced(valid)) => if valid {
            (
                CallRun { needs_type: true, phase: CallPhase::Finished, ..r },
                CallNext::Do(CallEnd::HavocArguments),
            )
        } else {
            (at_phase(r, CallPhase::Finished), CallNext::Do(CallEnd::Abort))
        },
        _ => (r, CallNext::Do(CallEnd::Transfer)),
    }
}

impl CallRun {
    /// A run that looks at the receiver has a callee.
    pub open spec fn wf(self) -> bool {
        self.phase is Receiver || self.phase is Target || self.phase is Callee
            ==> self.callee is Some
    }

    fn direct_step(&mut self) -> (r: CallNext)
        ensures
            (*final(self), r) == direct(*old(self)),
            final(self).wf(),
    {
        match &self.callee {
            None => {
                self.phase = CallPhase::Finished;
                CallNext::Do(CallEnd::Transfer)
            },
            Some(callee) => {
                if *callee.get_method_name() != "__call_c_function_ptr".to_string() {
                    let question = CallQuestion::Facts(callee.clone());
                    self.phase = CallPhase::Callee;
                    CallNext::Ask(question)
                } else if self.has_arguments {
                    self.phase = CallPhase::Pointer;
                    CallNext::Ask(CallQuestion::Pointer)
                } else {
                    self.phase = CallPhase::Finished;
                    CallNext::Do(CallEnd::FreshResult)
                }
            },
        }
    }

    fn dispatch_step(&mut self) -> (r: CallNext)
        ensures
            (*final(self), r) == dispatched(*old(self)),
            final(self).wf(),
    {
        if self.callee.is_some() && self.is_virtual && self.has_arguments {
            self.phase = CallPhase::Receiver;
            CallNext::Ask(CallQuestion::Receiver)
        } else {
            self.direct_step()
        }
    }

    /// Starts the run of an instruction. `initializer` is that of a global variable
    /// which the instruction reads for the first time.
    pub fn start(&mut self, initializer: Option<Procname>) -> (r: CallNext)
        ensures
            (*final(self), r) == started(*old(self), initializer),
            final(self).wf(),
    {
        match initializer {
            Some(p) => {
                self.phase = CallPhase::Initializer;
                CallNext::Ask(CallQuestion::Initializer(p))
            },
            None => self.dispatch_step(),
        }
    }

    /// Goes on with the answer to the last question.
    pub fn answer(&mut self, answer: CallAnswer) -> (r: CallNext)
        requires
            old(self).wf(),
            answers(old(self).phase, answer),
        ensures
            (*final(self), r) == answered(*old(self), answer),
            final(self).wf(),
    {
        let mut phase = CallPhase::Finished;
        std::mem::swap(&mut phase, &mut self.phase);
        match (phase, answer) {
            (CallPhase::Initializer, CallAnswer::Initialized(n)) => if n > 0 {
                CallNext::Do(CallEnd::TransferInitialized)
            } else {
                self.dispatch_step()
            },
            (CallPhase::Receiver, CallAnswer::DynamicType(typ)) => {
                let target = match &self.callee {
                    Some(callee) => resolve_virtual_call_target(callee, typ.as_ref()),
                    None => None,
                };
                match target {
                    Some(target) => {
                        self.phase = CallPhase::Target(target.clone());
                        CallNext::Ask(CallQuestion::Facts(target))
                    },
                    None => {
                        self.needs_type = true;
                        self.direct_step()
                    },
                }
            },
            (CallPhase::Target(target), CallAnswer::Facts(facts)) => {
                if redirects_to(&self.caller, &target, facts) {
                    self.callee = Some(target);
                    self.is_virtual = false;
                } else {
                    self.needs_type = true;
                }
                self.direct_step()
            },
            (CallPhase::Callee, CallAnswer::Facts(facts)) => {
                let end = match &self.callee {
                    Some(callee) => match call_action(&self.caller, callee, facts) {
                        CallAction::RunModel => CallEnd::RunModel(callee.clone()),
                        CallAction::ApplySummary => CallEnd::ApplySummary(callee.clone()),
                        CallAction::CallUnknown => CallEnd::CallUnknown(callee.clone()),
                        _ => CallEnd::Transfer,
                    },
                    None => CallEnd::Transfer,
                };
                CallNext::Do(end)
            },
            (CallPhase::Pointer, CallAnswer::Pointee(Some(target))) => {
                self.phase = CallPhase::Pointee(target.clone());
                CallNext::Ask(CallQuestion::Facts(target))
            },
            (CallPhase::Pointer, CallAnswer::Pointee(None)) => {
                self.phase = CallPhase::Dereference;
                CallNext::Ask(CallQuestion::Dereference)
            },
            (CallPhase::Pointee(target), CallAnswer::Facts(facts)) => CallNext::Do(
                if facts.has_model {
                    CallEnd::RunModel(target)
                } else if facts.has_summary {
                    CallEnd::ApplySummary(target)
                } else {
                    CallEnd::CallUnknown(target)
                },
            ),
            (CallPhase::Dereference, CallAnswer::Dereferenced(valid)) => if valid {
                self.needs_type = true;
                CallNext::Do(CallEnd::HavocArguments)
            } else {
                CallNext::Do(CallEnd::Abort)
            },
            _ => CallNext::Do(CallEnd::Transfer),
        }
    }
}

/// How many questions may still be asked.
pub open spec fn questions_left(phase: CallPhase) -> nat {
    match phase {
        CallPhase::Initializer => 5,
        CallPhase::Receiver => 4,
        CallPhase::Target(_) => 3,
        CallPhase::Pointer => 2,
        CallPhase::Callee | CallPhase::Pointee(_) | CallPhase::Dereference => 1,
        CallPhase::Finished => 0,
    }
}

/// Every answer brings the run closer to its end, and a run that has not ended
/// asks something.
pub proof fn law_run_ends(r: CallRun, answer: CallAnswer)
    requires
        r.wf(),
        answers(r.phase, answer),
    ensures
        ({
            let (s, next) = answered(r, answer);
            &&& questions_left(s.phase) < questions_left(r.phase)
            &&& next is Ask <==> !(s.phase is Finished)
        }),
{
}

/// A model is run in place of a summary, whether the procedure is called directly
/// or through a pointer.
pub proof fn law_model_first(r: CallRun, facts: CalleeFacts)
    requires
        r.wf(),
        r.phase is Callee || r.phase is Pointee,
        facts.has_model,
        r.phase is Callee ==> !is_pointer_call(r.callee->0),
    ensures
        answered(r, CallAnswer::Facts(facts)).1 == CallNext::Do(
            CallEnd::RunModel(
                match r.phase {
                    CallPhase::Pointee(target) => target,
                    _ => r.callee->0,
                },
            ),
        ),
{
}

/// A virtual call is redirected only to a method that can be called; otherwise the
/// dynamic type of the receiver is asked for.
pub proof fn law_redirected_or_asked(r: CallRun, facts: CalleeFacts, target: Procname)
    requires
        r.wf(),
        r.phase == CallPhase::Target(target),
    ensures
        ({
            let (s, _) = answered(r, CallAnswer::Facts(facts));
            if facts.has_summary || facts.has_model || target.key() == r.caller.key() {
                s.callee == Some(target) && s.needs_type == r.needs_type
            } else {
                s.callee == r.callee && s.needs_type
            }
        }),
{
}

} // verus!
