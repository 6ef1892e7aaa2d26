//! Which callee a call reaches and what is known of its result.

use super::calls::{
    action_of_call, global_root, initializer_before, is_untouched_global, values_equal,
    virtual_target, with_equal_actuals, with_return_history, with_unknown_result, CalleeFacts,
};
use crate::abductive_model::{plain, repr_in, AbductiveV};
use crate::abstract_value::AbstractValue;
use crate::base_stack::{stack_find, StackEntry};
use crate::formula::binop_laws::lemma_known_const;
use crate::formula::lin_arith::Valuation;
use crate::formula::meaning::{lemma_repr_value, models, phi_wf};
use crate::history_laws::law_merged;
use crate::key::{Key, Keyed};
use crate::ordered::{lemma_set_put_contains, sorted};
use crate::sil::{Exp, Ident, Instr, Procname, PvarKind, Typ, TypeDesc, TypeName, Var};
use crate::state_laws::law_stack_find_added;
use crate::value_history::{has_path, HistoryPath, ValueHistory, ValueWithHistory};
use vstd::prelude::*;

verus! {

/// A function pointer is looked up whatever is known of it. Otherwise a model, and
/// only without one a summary, is used where there is one; only a procedure that
/// calls itself is taken to be unknown, and everything else is left to the transfer
/// function.
pub proof fn law_call_action(caller: Procname, callee: Procname, facts: CalleeFacts)
    ensures
        ({
            let r = action_of_call(caller, callee, facts);
            &&& r is CallFunctionPointer <==> callee.method_name() == "__call_c_function_ptr"@
            &&& r is RunModel ==> facts.has_model
            &&& r is ApplySummary ==> facts.has_summary && !facts.has_model
            &&& r is CallUnknown ==> !facts.has_model && !facts.has_summary && callee.key()
                == caller.key()
            &&& r is Transfer ==> !facts.has_model && !facts.has_summary && callee.key()
                != caller.key()
        }),
{
}

/// A virtual call reaches a method of the same name and language, in the class of the
/// receiver; there is a target exactly where that class is of the language of the
/// callee.
pub proof fn law_virtual_target(callee: Procname, typ: Typ)
    ensures
        virtual_target(callee, None) is None,
        virtual_target(callee, Some(typ)) matches Some(p) ==> {
            &&& p.method_name() == callee.method_name()
            &&& p is Hack <==> callee is Hack
            &&& p is Java <==> callee is Java
            &&& p is Python <==> callee is Python
            &&& !(p is C)
            &&& p matches Procname::Hack(n) ==> callee is Hack && *typ.desc == TypeDesc::Tstruct(
                TypeName::HackClass(n.class_name->0),
            ) && n.class_name is Some
            &&& p matches Procname::Java(n) ==> *typ.desc == TypeDesc::Tstruct(
                TypeName::JavaClass(n.class_name),
            )
            &&& p matches Procname::Python(n) ==> n.class_name is Some && (
            *typ.desc matches TypeDesc::Tstruct(TypeName::PythonClass(c)) && c.0
                == n.class_name->0)
        },
        (*typ.desc matches TypeDesc::Tstruct(TypeName::HackClass(_)) && callee is Hack)
            || (*typ.desc matches TypeDesc::Tstruct(TypeName::JavaClass(_)) && callee is Java)
            || (*typ.desc matches TypeDesc::Tstruct(TypeName::PythonClass(_)) && callee is Python)
            <==> virtual_target(callee, Some(typ)) is Some,
{
}

/// Values taken to be equal have the same value wherever the path condition holds.
pub proof fn law_equal_values_are_equal(
    d: AbductiveV,
    a: AbstractValue,
    b: AbstractValue,
    rho: Valuation,
)
    requires
        phi_wf(d.formula.phi),
        models(d.formula.phi, rho),
        values_equal(d, a, b),
    ensures
        rho(a) == rho(b),
{
    let m = d.formula.phi;
    lemma_repr_value(m, a, rho);
    lemma_repr_value(m, b, rho);
    lemma_known_const(m, a, rho);
    lemma_known_const(m, b, rho);
}

/// The history of a result has the paths that it had and those of every actual that is
/// equal to the result, and no others.
pub proof fn law_equal_actuals(
    d: AbductiveV,
    v: AbstractValue,
    h: ValueHistory,
    actuals: Seq<ValueWithHistory>,
    p: HistoryPath,
)
    ensures
        has_path(with_equal_actuals(d, v, h, actuals).paths@, p) <==> has_path(h.paths@, p)
            || exists|i: int|
            0 <= i < actuals.len() && values_equal(d, v, (#[trigger] actuals[i]).addr) && has_path(
                actuals[i].history.paths@,
                p,
            ),
    decreases actuals.len(),
{
    if actuals.len() > 0 {
        let t = actuals.drop_last();
        let last = actuals.len() - 1;
        let rest = with_equal_actuals(d, v, h, t);
        law_equal_actuals(d, v, h, t, p);
        law_merged(rest, actuals.last().history, p);
        if exists|i: int|
            0 <= i < t.len() && values_equal(d, v, (#[trigger] t[i]).addr) && has_path(
                t[i].history.paths@,
                p,
            ) {
            let i = choose|i: int|
                0 <= i < t.len() && values_equal(d, v, (#[trigger] t[i]).addr) && has_path(
                    t[i].history.paths@,
                    p,
                );
            assert(actuals[i] == t[i]);
        }
        if exists|i: int|
            0 <= i < actuals.len() && values_equal(d, v, (#[trigger] actuals[i]).addr) && has_path(
                actuals[i].history.paths@,
                p,
            ) {
            let i = choose|i: int|
                0 <= i < actuals.len() && values_equal(d, v, (#[trigger] actuals[i]).addr)
                    && has_path(actuals[i].history.paths@, p);
            if i < t.len() {
                assert(t[i] == actuals[i]);
            }
        }
        assert(actuals[last] == actuals.last());
    }
}

/// The result of a call stays bound to its value, with the history of the actuals
/// equal to it, and every other variable stays as it was.
pub proof fn law_return_history(
    d: AbductiveV,
    ret_id: Ident,
    actuals: Seq<ValueWithHistory>,
    other: Var,
)
    requires
        sorted::<Key, StackEntry>(d.post.stack),
    ensures
        ({
            let var = Var::LogicalVar(ret_id);
            let r = with_return_history(d, ret_id, actuals);
            &&& other.key() != var.key() ==> stack_find(r.post.stack, other) == stack_find(
                d.post.stack,
                other,
            )
            &&& stack_find(d.post.stack, var) matches Some(v) ==> (stack_find(
                r.post.stack,
                var,
            ) matches Some(w) && w.addr == v.addr && w.history.key() == with_equal_actuals(
                d,
                v.addr,
                v.history,
                actuals,
            ).key())
        }),
{
    let var = Var::LogicalVar(ret_id);
    if let Some(v) = stack_find(d.post.stack, var) {
        let h = with_equal_actuals(d, v.addr, v.history, actuals);
        let w = ValueWithHistory { addr: v.addr, history: h };
        law_stack_find_added(d.post.stack, var, w, var);
        law_stack_find_added(d.post.stack, var, w, other);
    }
}

/// The result of an unknown call is bound to the fresh value, which is an integer where
/// its type says so; nothing else changes.
pub proof fn law_unknown_result(
    d: AbductiveV,
    id: Ident,
    value: AbstractValue,
    is_int: bool,
    other: Var,
)
    requires
        sorted::<Key, StackEntry>(d.post.stack),
    ensures
        ({
            let var = Var::LogicalVar(id);
            let r = with_unknown_result(d, id, value, is_int);
            &&& stack_find(r.post.stack, var) == Some(plain(value))
            &&& other.key() != var.key() ==> stack_find(r.post.stack, other) == stack_find(
                d.post.stack,
                other,
            )
            &&& is_int ==> r.formula.phi.ints.contains(repr_in(d, value))
            &&& !is_int ==> r.formula == d.formula
            &&& r.post.heap == d.post.heap && r.post.attrs == d.post.attrs && r.pre == d.pre
        }),
{
    let var = Var::LogicalVar(id);
    law_stack_find_added(d.post.stack, var, plain(value), var);
    law_stack_find_added(d.post.stack, var, plain(value), other);
    lemma_set_put_contains::<AbstractValue>(
        d.formula.phi.ints,
        repr_in(d, value),
        repr_in(d, value),
    );
}

/// An initializer runs only before a load that starts from a global variable which has
/// it, which nothing has read or written yet, and not in the initializer itself.
pub proof fn law_initializer(d: AbductiveV, instr: Instr, caller: Procname)
    ensures
        initializer_before(d, instr, caller) matches Some(p) ==> {
            &&& p.key() != caller.key()
            &&& instr matches Instr::Load { e, .. } && (global_root(e) matches Some(pvar)
                && pvar.kind == (PvarKind::Global { initializer: Some(p) }) && is_untouched_global(
                d,
                pvar,
            ))
        },
        instr matches Instr::Load { e, .. } ==> (global_root(e) matches Some(pvar) ==> (
        pvar.kind matches PvarKind::Global { initializer: Some(p) } ==> is_untouched_global(d, pvar)
            && p.key() != caller.key() ==> initializer_before(d, instr, caller) == Some(p))),
{
}

/// The variable that a place starts from is that of the place it is a field or an
/// element of; a variable that is not global is none.
pub proof fn law_global_root(e: Exp)
    ensures
        global_root(e) matches Some(p) ==> p.kind is Global,
        e matches Exp::Lvar(p) ==> (global_root(e) is Some <==> p.kind is Global),
        e matches Exp::Lfield(inner, _) ==> global_root(e) == global_root(*inner),
        e matches Exp::Lindex(base, _) ==> global_root(e) == global_root(*base),
        e matches Exp::Cast(_, inner) ==> global_root(e) == global_root(*inner),
    decreases e,
{
    match e {
        Exp::Lfield(inner, _) => law_global_root(*inner),
        Exp::Lindex(base, _) => law_global_root(*base),
        Exp::Cast(_, inner) => law_global_root(*inner),
        _ => {},
    }
}

} // verus!
