//! What a call does: which callee it reaches, and what is done with it.

use super::disjuncts::{exec_views, has_continue_program, some_continue};
use crate::abductive::AbductiveDomain;
use crate::abductive_model::{
    after_read, edge_count, havocked, plain, read_value, repr_in, with_attr, AbductiveV,
};
use crate::abstract_value::{AbstractValue, FreshCounters};
use crate::access::Access;
use crate::attribute::Attribute;
use crate::base_domain::BaseV;
use crate::base_stack::{stack_add, stack_find};
use crate::diagnostic::Diagnostic;
use crate::execution_domain::{ExecutionDomain, ExecutionKind, ExecutionV};
use crate::formula::fits::call_fits;
use crate::formula::formula_model::FormulaModel;
use crate::formula::meaning::phi_wf;
use crate::formula::solver::{known_const, marked_int, run_fn_app, PhiModel};
use crate::heap_model::memory_find;
use crate::heap_reach::reachable_set;
use crate::key::{same_key, Keyed};
use crate::ordered::lookup;
use crate::sil::{
    Exp, HackProcname, Ident, Instr, JavaProcname, Mangled, Procname, Pvar, PvarKind,
    PythonProcname, Typ, TypeDesc, TypeName, Var,
};
use crate::value_history::{ValueHistory, ValueWithHistory};
use vstd::prelude::*;

verus! {

/// The name of the model that calls a function through a pointer.
pub open spec fn is_pointer_call(callee: Procname) -> bool {
    callee.method_name() == "__call_c_function_ptr"@
}

/// What is known of a callee.
#[derive(Clone, Copy, Debug, PartialEq, Eq, Structural)]
pub struct CalleeFacts {
    pub has_model: bool,
    pub has_summary: bool,
}

/// What to do with a direct call.
#[derive(Clone, Copy, Debug, PartialEq, Eq, Structural)]
pub enum CallAction {
    /// Find out which function the first argument points to.
    CallFunctionPointer,
    RunModel,
    ApplySummary,
    /// A recursive call without a summary: treat the callee as unknown.
    CallUnknown,
    /// Leave the call to the transfer function.
    Transfer,
}

/// A model comes before a summary, and a summary before recursion.
pub open spec fn action_of_call(caller: Procname, callee: Procname, facts: CalleeFacts) -> CallAction {
    if is_pointer_call(callee) {
        CallAction::CallFunctionPointer
    } else if facts.has_model {
        CallAction::RunModel
    } else if facts.has_summary {
        CallAction::ApplySummary
    } else if callee.key() == caller.key() {
        CallAction::CallUnknown
    } else {
        CallAction::Transfer
    }
}

/// Decides what to do with a direct call.
pub fn call_action(caller: &Procname, callee: &Procname, facts: CalleeFacts) -> (r: CallAction)
    ensures
        r == action_of_call(*caller, *callee, facts),
{
    if *callee.get_method_name() == "__call_c_function_ptr".to_string() {
        CallAction::CallFunctionPointer
    } else if facts.has_model {
        CallAction::RunModel
    } else if facts.has_summary {
        CallAction::ApplySummary
    } else if same_key(callee, caller) {
        CallAction::CallUnknown
    } else {
        CallAction::Transfer
    }
}

/// The procedure that an instruction calls, and whether the call is virtual.
pub fn called_procedure(instr: &Instr) -> (r: Option<(&Procname, bool)>)
    ensures
        (match instr {
            Instr::Call { fun_exp: Exp::Cfun(callee), flags, .. } => Some(
                (*callee, flags.cf_virtual),
            ),
            _ => None,
        }) == (match r {
            Some((callee, is_virtual)) => Some((*callee, is_virtual)),
            None => None,
        }),
{
    match instr {
        Instr::Call { fun_exp, flags, .. } => match fun_exp {
            Exp::Cfun(callee) => Some((callee, flags.cf_virtual)),
            _ => None,
        },
        _ => None,
    }
}

/// The method that a virtual call reaches: the called one, in the class that is
/// the dynamic type of the receiver.
pub open spec fn virtual_target(callee: Procname, dynamic_type: Option<Typ>) -> Option<Procname> {
    match dynamic_type {
        None => None,
        Some(typ) => match (*typ.desc, callee) {
            (TypeDesc::Tstruct(TypeName::HackClass(class)), Procname::Hack(n)) => Some(
                Procname::Hack(HackProcname { class_name: Some(class), ..n }),
            ),
            (TypeDesc::Tstruct(TypeName::JavaClass(class)), Procname::Java(n)) => Some(
                Procname::Java(JavaProcname { class_name: class, ..n }),
            ),
            (TypeDesc::Tstruct(TypeName::PythonClass(class)), Procname::Python(n)) => Some(
                Procname::Python(PythonProcname { class_name: Some(class.0), ..n }),
            ),
            _ => None,
        },
    }
}

/// The method that a virtual call reaches, given the dynamic type of the
/// receiver.
pub fn resolve_virtual_call_target(callee: &Procname, dynamic_type: Option<&Typ>) -> (r: Option<
    Procname,
>)
    ensures
        r == virtual_target(
            *callee,
            match dynamic_type {
                Some(t) => Some(*t),
                None => None,
            },
        ),
{
    let typ = match dynamic_type {
        Some(typ) => typ,
        None => {
            return None;
        },
    };
    let name = match &*typ.desc {
        TypeDesc::Tstruct(name) => name,
        _ => {
            return None;
        },
    };
    match (callee, name) {
        (Procname::Hack(n), TypeName::HackClass(class)) => Some(
            Procname::Hack(
                HackProcname {
                    class_name: Some(class.clone()),
                    function_name: n.function_name.clone(),
                    arity: n.arity,
                },
            ),
        ),
        (Procname::Java(n), TypeName::JavaClass(class)) => Some(
            Procname::Java(
                JavaProcname { class_name: class.clone(), method_name: n.method_name.clone() },
            ),
        ),
        (Procname::Python(n), TypeName::PythonClass(class)) => Some(
            Procname::Python(
                PythonProcname {
                    class_name: Some(class.0.clone()),
                    function_name: n.function_name.clone(),
                },
            ),
        ),
        _ => None,
    }
}

/// Whether a virtual call goes to the method found for it: only when there is
/// something to call. Otherwise the dynamic type of the receiver is asked for.
pub fn redirects_to(caller: &Procname, target: &Procname, facts: CalleeFacts) -> (b: bool)
    ensures
        b == (facts.has_summary || facts.has_model || target.key() == caller.key()),
{
    facts.has_summary || facts.has_model || same_key(target, caller)
}

/// What to do with a callee that has a summary.
#[derive(Clone, Copy, Debug, PartialEq, Eq, Structural)]
pub enum SummaryAction {
    /// The callee never returns.
    Exit,
    /// The callee has no body: its pointer arguments are unknown after the call.
    HavocPointers,
    /// The summary has nothing to apply.
    NothingApplies,
    Apply,
}

/// Decides what to do with a callee that has a summary with the given number of
/// pre/posts.
pub fn summary_action(
    callee: &Procname,
    is_noreturn: bool,
    is_empty_body: bool,
    pre_posts: usize,
) -> (r: SummaryAction)
    ensures
        r == (if is_noreturn {
            SummaryAction::Exit
        } else if is_empty_body && callee is C {
            SummaryAction::HavocPointers
        } else if pre_posts == 0 {
            SummaryAction::NothingApplies
        } else {
            SummaryAction::Apply
        }),
{
    if is_noreturn {
        SummaryAction::Exit
    } else if is_empty_body && callee.is_c() {
        SummaryAction::HavocPointers
    } else if pre_posts == 0 {
        SummaryAction::NothingApplies
    } else {
        SummaryAction::Apply
    }
}

/// Whether a known callee is treated as unknown too, so that some path goes on.
pub fn forces_continue(enabled: bool, results: &Vec<ExecutionDomain>, incomplete: bool) -> (b: bool)
    ensures
        b == (enabled && !some_continue(exec_views(results@)) && incomplete),
{
    enabled && !has_continue_program(results) && incomplete
}

/// `d` with `id` bound to `value`.
pub open spec fn with_identifier(d: AbductiveV, id: Ident, value: AbstractValue) -> AbductiveV {
    AbductiveV {
        post: BaseV {
            stack: stack_add(d.post.stack, Var::LogicalVar(id), plain(value)),
            ..d.post
        },
        ..d
    }
}

/// `d` with the result of an unknown call: a fresh value, an integer if the type
/// of the result is one.
pub open spec fn with_unknown_result(
    d: AbductiveV,
    id: Ident,
    value: AbstractValue,
    is_int: bool,
) -> AbductiveV {
    let d1 = with_identifier(d, id, value);
    if is_int {
        AbductiveV {
            formula: FormulaModel { phi: marked_int(d1.formula.phi, value), ..d1.formula },
            ..d1
        }
    } else {
        d1
    }
}

/// Binds the result of an unknown call to a fresh value.
pub fn write_unknown_result(
    state: &mut AbductiveDomain,
    ret_id: &Ident,
    ret_typ: &Typ,
    counters: &mut FreshCounters,
) -> (r: AbstractValue)
    requires
        old(counters).wf(),
        old(counters).next_fresh < i64::MAX,
    ensures
        r.0 == old(counters).next_fresh,
        final(state)@ == with_unknown_result(old(state)@, *ret_id, r, *ret_typ.desc is Tint),
        final(counters).wf(),
        final(counters).next_fresh == old(counters).next_fresh + 1,
        final(counters).next_fresh_restricted == old(counters).next_fresh_restricted,
{
    let value = AbstractValue::mk_fresh(counters);
    state.post.stack.add(Var::LogicalVar(ret_id.clone()), value);
    if ret_typ.is_int() {
        state.path_condition.and_is_int(value);
    }
    value
}

/// Makes what an argument of an unresolved call leads to unknown.
pub fn havoc_unresolved_argument(
    state: &mut AbductiveDomain,
    arg: AbstractValue,
    counters: &mut FreshCounters,
)
    requires
        old(counters).wf(),
        old(counters).next_fresh + edge_count(
            old(state)@.post.heap,
            reachable_set(old(state)@.post.heap.graph, arg),
            old(counters).next_fresh as int,
        ) <= i64::MAX,
    ensures
        final(state)@ == havocked(
            with_attr(old(state)@, arg, Attribute::UnknownEffect),
            arg,
            old(counters).next_fresh as int,
        ),
        final(counters).wf(),
        final(counters).next_fresh_restricted == old(counters).next_fresh_restricted,
        final(counters).next_fresh == old(counters).next_fresh + edge_count(
            old(state)@.post.heap,
            reachable_set(old(state)@.post.heap.graph, arg),
            old(counters).next_fresh as int,
        ),
{
    state.add_attr(arg, Attribute::UnknownEffect);
    state.apply_unknown_effect(arg, counters);
}

/// Which of the arguments of a call to a function without a body are unknown after
/// the call: those passed for pointers. Without any, the function is pure.
pub fn unknown_arguments(formal_types: &Vec<Typ>, count: usize) -> (r: Vec<bool>)
    ensures
        r@ == Seq::new(
            count as nat,
            |i: int| i < formal_types@.len() && *formal_types@[i].desc is Tptr,
        ),
{
    let mut out: Vec<bool> = Vec::new();
    while out.len() < count
        invariant
            out@.len() <= count,
            out@ =~= Seq::new(
                out@.len(),
                |i: int| i < formal_types@.len() && *formal_types@[i].desc is Tptr,
            ),
        decreases count - out@.len(),
    {
        let i: usize = out.len();
        out.push(i < formal_types.len() && formal_types[i].is_pointer());
    }
    out
}

/// Whether the result of a call can be recorded within the 64-bit integers. That is so of
/// a fresh result unless the path condition itself is at their limits.
pub fn pure_call_fits(
    state: &AbductiveDomain,
    result: AbstractValue,
    callee: &Procname,
    actuals: &Vec<AbstractValue>,
) -> (b: bool)
    ensures
        b == call_fits(state@.formula.phi, result, callee.text(), actuals@),
        b && phi_wf(state@.formula.phi) ==> run_fn_app(
            state@.formula.phi,
            result,
            callee.text(),
            actuals@,
        ) is Some,
{
    let name = callee.to_string();
    state.path_condition.fn_app_fits(result, name.as_str(), actuals)
}

/// Records the result of a call without pointer arguments to a function without a
/// body: such a function is pure. `false` when the path is impossible.
pub fn record_pure_call(
    state: &mut AbductiveDomain,
    result: AbstractValue,
    callee: &Procname,
    actuals: &Vec<AbstractValue>,
) -> (b: bool)
    requires
        run_fn_app(old(state)@.formula.phi, result, callee.text(), actuals@) is Some,
    ensures
        ({
            let (phi, outcome) = run_fn_app(
                old(state)@.formula.phi,
                result,
                callee.text(),
                actuals@,
            )->0;
            &&& b == (outcome is Sat)
            &&& final(state)@ == (AbductiveV {
                formula: FormulaModel { phi, ..old(state)@.formula },
                ..old(state)@
            })
        }),
{
    let name = callee.to_string();
    let outcome = state.path_condition.and_fn_app(result, name.as_str(), actuals);
    outcome.is_sat()
}

/// The constant that a value is known to be, if it is an integer.
pub open spec fn const_of(phi: PhiModel, v: AbstractValue) -> Option<i64> {
    match known_const(phi, v) {
        Some(q) => if q.denom == 1 {
            Some(q.numer)
        } else {
            None
        },
        None => None,
    }
}

/// Two values are known to be equal: they are in the same class, or the same
/// constant.
pub open spec fn values_equal(d: AbductiveV, a: AbstractValue, b: AbstractValue) -> bool {
    repr_in(d, a) == repr_in(d, b) || (const_of(d.formula.phi, a) is Some && const_of(
        d.formula.phi,
        a,
    ) == const_of(d.formula.phi, b))
}

/// Whether two values are known to be equal.
pub fn values_are_equal_in_state(
    state: &AbductiveDomain,
    lhs: AbstractValue,
    rhs: AbstractValue,
) -> (b: bool)
    ensures
        b == values_equal(state@, lhs, rhs),
{
    if state.get_var_repr(lhs) == state.get_var_repr(rhs) {
        return true;
    }
    match (state.get_const(lhs), state.get_const(rhs)) {
        (Some(a), Some(b)) => a == b,
        _ => false,
    }
}

/// `h` merged with the histories of the actuals that are equal to `v`.
pub open spec fn with_equal_actuals(
    d: AbductiveV,
    v: AbstractValue,
    h: ValueHistory,
    actuals: Seq<ValueWithHistory>,
) -> ValueHistory
    decreases actuals.len(),
{
    if actuals.len() == 0 {
        h
    } else {
        let rest = with_equal_actuals(d, v, h, actuals.drop_last());
        if values_equal(d, v, actuals.last().addr) {
            rest.merged(actuals.last().history)
        } else {
            rest
        }
    }
}

/// `d` with the history of the result extended by those of the actuals that are
/// equal to it.
pub open spec fn with_return_history(
    d: AbductiveV,
    ret_id: Ident,
    actuals: Seq<ValueWithHistory>,
) -> AbductiveV {
    let var = Var::LogicalVar(ret_id);
    match stack_find(d.post.stack, var) {
        None => d,
        Some(v) => {
            let h = with_equal_actuals(d, v.addr, v.history, actuals);
            if h.key() == v.history.key() {
                d
            } else {
                AbductiveV {
                    post: BaseV {
                        stack: stack_add(
                            d.post.stack,
                            var,
                            ValueWithHistory { addr: v.addr, history: h },
                        ),
                        ..d.post
                    },
                    ..d
                }
            }
        },
    }
}

fn merge_return_history(
    state: &mut AbductiveDomain,
    ret_id: &Ident,
    actuals: &Vec<ValueWithHistory>,
)
    ensures
        final(state)@ == with_return_history(old(state)@, *ret_id, actuals@),
{
    let var = Var::LogicalVar(ret_id.clone());
    let value = match state.post.stack.find_with_history(&var) {
        Some(value) => value.clone(),
        None => {
            return;
        },
    };
    let ghost d = state@;
    let mut history = value.history.clone();
    let mut i: usize = 0;
    assert(actuals@.take(0) =~= Seq::<ValueWithHistory>::empty());
    while i < actuals.len()
        invariant
            d == state@,
            i <= actuals@.len(),
            history == with_equal_actuals(d, value.addr, value.history, actuals@.take(i as int)),
        decreases actuals@.len() - i,
    {
        let ghost t = actuals@.take(i + 1);
        assert(t.drop_last() =~= actuals@.take(i as int));
        assert(t.last() == actuals@[i as int]);
        if values_are_equal_in_state(state, value.addr, actuals[i].addr) {
            history = history.merge(&actuals[i].history);
        }
        i = i + 1;
    }
    assert(actuals@.take(i as int) =~= actuals@);
    if !same_key(&history, &value.history) {
        state.post.stack.add_with_history(var, ValueWithHistory::new(value.addr, history));
    }
}

/// `e` with the history of the result extended by those of the actuals that are
/// equal to it.
pub open spec fn execution_with_return_history(
    e: ExecutionV,
    ret_id: Ident,
    actuals: Seq<ValueWithHistory>,
) -> ExecutionV {
    ExecutionV { state: with_return_history(e.state, ret_id, actuals), ..e }
}

fn merge_execution_history(
    exec: ExecutionDomain,
    ret_id: &Ident,
    actuals: &Vec<ValueWithHistory>,
) -> (r: ExecutionDomain)
    ensures
        r@ == execution_with_return_history(exec@, *ret_id, actuals@),
{
    match exec {
        ExecutionDomain::ContinueProgram(s) => {
            let mut s = s;
            merge_return_history(&mut s, ret_id, actuals);
            ExecutionDomain::ContinueProgram(s)
        },
        ExecutionDomain::ExitProgram(s) => {
            let mut s = s;
            merge_return_history(&mut s, ret_id, actuals);
            ExecutionDomain::ExitProgram(s)
        },
        ExecutionDomain::ExceptionRaised(s) => {
            let mut s = s;
            merge_return_history(&mut s, ret_id, actuals);
            ExecutionDomain::ExceptionRaised(s)
        },
        ExecutionDomain::AbortProgram { state, diagnostic } => {
            let mut s = *state;
            merge_return_history(&mut s, ret_id, actuals);
            ExecutionDomain::AbortProgram { state: Box::new(s), diagnostic }
        },
        ExecutionDomain::LatentAbortProgram { state, diagnostic } => {
            let mut s = *state;
            merge_return_history(&mut s, ret_id, actuals);
            ExecutionDomain::LatentAbortProgram { state: Box::new(s), diagnostic }
        },
        ExecutionDomain::LatentInvalidAccess { state, diagnostic } => {
            let mut s = *state;
            merge_return_history(&mut s, ret_id, actuals);
            ExecutionDomain::LatentInvalidAccess { state: Box::new(s), diagnostic }
        },
    }
}

/// Extends the history of the result in each state by those of the actuals that
/// are equal to it there.
pub fn merge_return_history_from_equal_actuals(
    results: &Vec<ExecutionDomain>,
    ret_id: &Ident,
    actuals: &Vec<ValueWithHistory>,
) -> (r: Vec<ExecutionDomain>)
    ensures
        r@.len() == results@.len(),
        forall|i: int|
            0 <= i < r@.len() ==> (#[trigger] r@[i])@ == execution_with_return_history(
                results@[i]@,
                *ret_id,
                actuals@,
            ),
{
    let mut r: Vec<ExecutionDomain> = Vec::new();
    let mut i: usize = 0;
    while i < results.len()
        invariant
            i <= results@.len(),
            r@.len() == i,
            forall|j: int|
                0 <= j < i ==> (#[trigger] r@[j])@ == execution_with_return_history(
                    results@[j]@,
                    *ret_id,
                    actuals@,
                ),
        decreases results@.len() - i,
    {
        r.push(merge_execution_history(results[i].clone(), ret_id, actuals));
        i = i + 1;
    }
    r
}

/// The path that ends in `d`, in the state `s`.
pub open spec fn aborted(s: AbductiveV, d: Diagnostic) -> ExecutionV {
    ExecutionV { kind: ExecutionKind::Abort, state: s, diagnostic: Some(d) }
}

/// The paths that end in the errors found on reading a function pointer.
pub fn abort_results(state: &AbductiveDomain, errors: &Vec<Diagnostic>) -> (r: Vec<ExecutionDomain>)
    ensures
        r@.len() == errors@.len(),
        forall|i: int|
            0 <= i < r@.len() ==> (#[trigger] r@[i])@ == aborted(state@, errors@[i]),
{
    let mut r: Vec<ExecutionDomain> = Vec::new();
    let mut i: usize = 0;
    while i < errors.len()
        invariant
            i <= errors@.len(),
            r@.len() == i,
            forall|j: int| 0 <= j < i ==> (#[trigger] r@[j])@ == aborted(state@, errors@[j]),
        decreases errors@.len() - i,
    {
        r.push(
            ExecutionDomain::AbortProgram {
                state: Box::new(state.clone()),
                diagnostic: Box::new(errors[i].clone()),
            },
        );
        i = i + 1;
    }
    r
}

/// The global variable that an expression starts from.
pub open spec fn global_root(e: Exp) -> Option<Pvar>
    decreases e,
{
    match e {
        Exp::Lvar(pvar) => if pvar.kind is Global {
            Some(pvar)
        } else {
            None
        },
        Exp::Lfield(inner, _) => global_root(*inner),
        Exp::Lindex(base, _) => global_root(*base),
        Exp::Cast(_, inner) => global_root(*inner),
        _ => None,
    }
}

/// The global variable that an expression starts from.
pub fn root_global_pvar(exp: &Exp) -> (r: Option<&Pvar>)
    ensures
        global_root(*exp) == (match r {
            Some(p) => Some(*p),
            None => None,
        }),
    decreases exp,
{
    match exp {
        Exp::Lvar(pvar) => if pvar.is_global() {
            Some(pvar)
        } else {
            None
        },
        Exp::Lfield(inner, _) => root_global_pvar(inner),
        Exp::Lindex(base, _) => root_global_pvar(base),
        Exp::Cast(_, inner) => root_global_pvar(inner),
        _ => None,
    }
}

/// Nothing has been read from or written to the global variable yet.
pub open spec fn is_untouched_global(d: AbductiveV, pvar: Pvar) -> bool {
    pvar.kind is Global && match stack_find(d.post.stack, Var::ProgramVar(Box::new(pvar))) {
        None => true,
        Some(v) => lookup(d.post.heap.graph, v.addr) is None,
    }
}

/// Whether the initializer of a global variable should run before it is read.
pub fn should_inline_global_initializer(pvar: &Pvar, state: &AbductiveDomain) -> (b: bool)
    ensures
        b == is_untouched_global(state@, *pvar),
{
    if !pvar.is_global() {
        return false;
    }
    let var = Var::ProgramVar(Box::new(pvar.clone()));
    match state.post.stack.find(&var) {
        None => true,
        Some(addr) => state.post.heap.get_edges(addr).is_none(),
    }
}

/// The initializer to run before an instruction: that of an untouched global
/// variable which it loads from, unless it is the analysed procedure itself.
pub open spec fn initializer_before(d: AbductiveV, instr: Instr, caller: Procname) -> Option<
    Procname,
> {
    match instr {
        Instr::Load { e, .. } => match global_root(e) {
            Some(pvar) => match pvar.kind {
                crate::sil::PvarKind::Global { initializer: Some(p) } => if is_untouched_global(
                    d,
                    pvar,
                ) && p.key() != caller.key() {
                    Some(p)
                } else {
                    None
                },
                _ => None,
            },
            None => None,
        },
        _ => None,
    }
}

/// The initializer to run before an instruction, if there is one.
pub fn global_initializer_before<'a>(
    state: &AbductiveDomain,
    instr: &'a Instr,
    caller: &Procname,
) -> (r: Option<&'a Procname>)
    ensures
        initializer_before(state@, *instr, *caller) == (match r {
            Some(p) => Some(*p),
            None => None,
        }),
{
    let e = match instr {
        Instr::Load { e, .. } => e,
        _ => {
            return None;
        },
    };
    let pvar = match root_global_pvar(e) {
        Some(pvar) => pvar,
        None => {
            return None;
        },
    };
    if !should_inline_global_initializer(pvar, state) {
        return None;
    }
    match pvar.initializer_procname() {
        Some(p) => if same_key(p, caller) {
            None
        } else {
            Some(p)
        },
        None => None,
    }
}

/// The type that a formal points to, if it is a declared one.
pub fn pointed_to_struct(formal_typ: &Typ) -> (r: Option<&TypeName>)
    ensures
        (match *formal_typ.desc {
            TypeDesc::Tptr(inner) => match *inner.desc {
                TypeDesc::Tstruct(name) => Some(name),
                _ => None,
            },
            _ => None,
        }) == (match r {
            Some(n) => Some(*n),
            None => None,
        }),
{
    match &*formal_typ.desc {
        TypeDesc::Tptr(inner) => match &*inner.desc {
            TypeDesc::Tstruct(name) => Some(name),
            _ => None,
        },
        _ => None,
    }
}

/// Extending the history of the result changes nothing but the binding of the
/// result, and there only the history.
pub proof fn law_return_history_keeps_values(
    d: AbductiveV,
    ret_id: Ident,
    actuals: Seq<ValueWithHistory>,
)
    ensures
        ({
            let r = with_return_history(d, ret_id, actuals);
            &&& r.pre == d.pre
            &&& r.formula == d.formula
            &&& r.post.heap == d.post.heap
            &&& r.post.attrs == d.post.attrs
            &&& r.must_be_valid == d.must_be_valid
            &&& stack_find(d.post.stack, Var::LogicalVar(ret_id)) is None ==> r == d
        }),
{
}

/// The slot of a formal.
pub open spec fn formal_slot(d: AbductiveV, name: Mangled, proc_name: Procname) -> Option<
    ValueWithHistory,
> {
    stack_find(
        d.post.stack,
        Var::ProgramVar(Box::new(Pvar { name, kind: PvarKind::Local { proc_name } })),
    )
}

/// The value that a formal holds, read through its slot; none where the formal has
/// no slot.
pub fn formal_pointee(
    state: &mut AbductiveDomain,
    name: &Mangled,
    proc_name: &Procname,
    counters: &mut FreshCounters,
) -> (r: Option<AbstractValue>)
    requires
        old(counters).wf(),
        (formal_slot(old(state)@, *name, *proc_name) matches Some(slot) && memory_find(
            old(state)@.post.heap,
            slot.addr,
            Access::Dereference,
        ) is None) ==> old(counters).next_fresh < i64::MAX,
    ensures
        final(counters).wf(),
        final(counters).next_fresh_restricted == old(counters).next_fresh_restricted,
        ({
            let fresh = AbstractValue(old(counters).next_fresh);
            match formal_slot(old(state)@, *name, *proc_name) {
                None => {
                    &&& r is None
                    &&& final(state)@ == old(state)@
                    &&& final(counters).next_fresh == old(counters).next_fresh
                },
                Some(slot) => {
                    let src = plain(slot.addr);
                    &&& r == Some(
                        read_value(old(state)@, src, Access::Dereference, fresh).addr,
                    )
                    &&& final(state)@ == after_read(
                        old(state)@,
                        src,
                        Access::Dereference,
                        fresh,
                    )
                    &&& final(counters).next_fresh == old(counters).next_fresh + (if memory_find(
                        old(state)@.post.heap,
                        slot.addr,
                        Access::Dereference,
                    ) is Some {
                        0int
                    } else {
                        1int
                    })
                },
            }
        }),
{
    let var = Var::ProgramVar(Box::new(Pvar::mk(name.clone(), proc_name.clone())));
    match state.post.stack.find(&var) {
        Some(addr) => Some(state.read_heap(addr, Access::Dereference, counters)),
        None => None,
    }
}

} // verus!
