//! The state at the start of a procedure.

use crate::abductive::blank_state;
use crate::abductive_model::bind_formals;
use crate::abstract_value::AbstractValue;
use crate::base_stack::{stack_find, StackEntry};
use crate::heap_model::{no_edges, EdgesV};
use crate::key::{Key, Keyed, PartV};
use crate::ordered::{lemma_lookup_put, lemma_put_sorted, lookup, sorted};
use crate::sil::{Mangled, Procname, Pvar, PvarKind, Typ, Var};
use crate::value_history::{HistoryEvent, ValueHistory};
use vstd::prelude::*;

verus! {

/// The variable of a formal.
pub open spec fn formal_var(proc_name: Procname, formal: Mangled) -> Var {
    Var::ProgramVar(Box::new(Pvar { name: formal, kind: PvarKind::Local { proc_name } }))
}

/// Formals with different names are different variables.
pub proof fn law_formal_vars_differ(proc_name: Procname, a: Mangled, b: Mangled)
    ensures
        formal_var(proc_name, a).key() == formal_var(proc_name, b).key() ==> a.name@ == b.name@,
{
    assert(formal_var(proc_name, a).key()[1] == PartV::Text(a.name@));
    assert(formal_var(proc_name, b).key()[1] == PartV::Text(b.name@));
}

proof fn lemma_initial(
    proc_name: Procname,
    formals: Seq<(Mangled, Typ)>,
    next: int,
    v: Var,
    a: AbstractValue,
)
    requires
        i64::MIN <= next,
        next + formals.len() <= i64::MAX,
    ensures
        ({
            let d = bind_formals(blank_state(), proc_name, formals, next);
            &&& sorted::<Key, StackEntry>(d.post.stack)
            &&& sorted::<AbstractValue, EdgesV>(d.post.heap.graph)
            &&& d.pre == d.post
            &&& d.post.attrs.len() == 0
            &&& d.formula == blank_state().formula
            &&& d.post.heap.limit == blank_state().post.heap.limit
            &&& stack_find(d.post.stack, v) is Some ==> exists|i: int|
                0 <= i < formals.len() && v.key() == formal_var(
                    proc_name,
                    (#[trigger] formals[i]).0,
                ).key()
            &&& lookup(d.post.heap.graph, a) == if next <= a.0 < next + formals.len() {
                Some(no_edges(blank_state().post.heap.limit))
            } else {
                None
            }
        }),
    decreases formals.len(),
{
    if formals.len() > 0 {
        let rest = formals.drop_last();
        let last = formals.last().0;
        let w = formal_var(proc_name, last);
        let addr = AbstractValue((next + formals.len() - 1) as i64);
        let before = bind_formals(blank_state(), proc_name, rest, next);
        let d = bind_formals(blank_state(), proc_name, formals, next);
        lemma_initial(proc_name, rest, next, v, a);
        lemma_initial(proc_name, rest, next, v, addr);
        let value = crate::value_history::ValueWithHistory {
            addr,
            history: ValueHistory::of_event(
                HistoryEvent::FormalArgument(
                    Pvar { name: last, kind: PvarKind::Local { proc_name } },
                ),
            ),
        };
        let e = StackEntry { var: w, value };
        lemma_put_sorted::<Key, StackEntry>(before.post.stack, w.key(), e);
        lemma_lookup_put::<Key, StackEntry>(before.post.stack, w.key(), e, v.key());
        let none = no_edges(before.post.heap.limit);
        lemma_put_sorted::<AbstractValue, EdgesV>(before.post.heap.graph, addr, none);
        lemma_lookup_put::<AbstractValue, EdgesV>(before.post.heap.graph, addr, none, a);
        if stack_find(d.post.stack, v) is Some {
            if v.key() == w.key() {
                assert(v.key() == formal_var(proc_name, formals[formals.len() - 1].0).key());
            } else {
                let i = choose|i: int|
                    0 <= i < rest.len() && v.key() == formal_var(
                        proc_name,
                        (#[trigger] rest[i]).0,
                    ).key();
                assert(formals[i] == rest[i]);
            }
        }
    }
}

/// At the start each formal is bound to a fresh address of its own: the formal at `i`
/// to the value `i` places after the next fresh one, unless a later formal has its
/// name. Its history says which argument it is.
pub proof fn law_formals_bound(
    proc_name: Procname,
    formals: Seq<(Mangled, Typ)>,
    next: int,
    i: int,
)
    requires
        i64::MIN <= next,
        next + formals.len() <= i64::MAX,
        0 <= i < formals.len(),
        forall|j: int|
            i < j < formals.len() ==> (#[trigger] formals[j]).0.name@ != formals[i].0.name@,
    ensures
        ({
            let d = bind_formals(blank_state(), proc_name, formals, next);
            let var = formal_var(proc_name, formals[i].0);
            &&& stack_find(d.post.stack, var) matches Some(value) && value.addr.0 == next + i
                && value.history == ValueHistory::of_event(
                HistoryEvent::FormalArgument(
                    Pvar { name: formals[i].0, kind: PvarKind::Local { proc_name } },
                ),
            )
            &&& stack_find(d.pre.stack, var) == stack_find(d.post.stack, var)
        }),
    decreases formals.len(),
{
    let rest = formals.drop_last();
    let last = formals.last().0;
    let w = formal_var(proc_name, last);
    let var = formal_var(proc_name, formals[i].0);
    let addr = AbstractValue((next + formals.len() - 1) as i64);
    let before = bind_formals(blank_state(), proc_name, rest, next);
    let value = crate::value_history::ValueWithHistory {
        addr,
        history: ValueHistory::of_event(
            HistoryEvent::FormalArgument(Pvar { name: last, kind: PvarKind::Local { proc_name } }),
        ),
    };
    lemma_initial(proc_name, rest, next, var, addr);
    lemma_initial(proc_name, formals, next, var, addr);
    lemma_lookup_put::<Key, StackEntry>(
        before.post.stack,
        w.key(),
        StackEntry { var: w, value },
        var.key(),
    );
    if i < rest.len() {
        law_formal_vars_differ(proc_name, last, formals[i].0);
        assert(formals[formals.len() - 1].0.name@ != formals[i].0.name@);
        assert forall|j: int| i < j < rest.len() implies (#[trigger] rest[j]).0.name@
            != rest[i].0.name@ by {
            assert(rest[j] == formals[j]);
        }
        assert(rest[i] == formals[i]);
        law_formals_bound(proc_name, rest, next, i);
    }
}

/// Different formals start at different addresses.
pub proof fn law_formals_do_not_alias(
    proc_name: Procname,
    formals: Seq<(Mangled, Typ)>,
    next: int,
    i: int,
    j: int,
)
    requires
        i64::MIN <= next,
        next + formals.len() <= i64::MAX,
        0 <= i < formals.len(),
        0 <= j < formals.len(),
        formals[i].0.name@ != formals[j].0.name@,
    ensures
        ({
            let d = bind_formals(blank_state(), proc_name, formals, next);
            let (a, b) = (
                stack_find(d.post.stack, formal_var(proc_name, formals[i].0)),
                stack_find(d.post.stack, formal_var(proc_name, formals[j].0)),
            );
            a is Some && b is Some && (a->0).addr != (b->0).addr
        }),
{
    let p = lemma_last_with_name(formals, i);
    let q = lemma_last_with_name(formals, j);
    law_formals_bound(proc_name, formals, next, p);
    law_formals_bound(proc_name, formals, next, q);
    lemma_same_var(proc_name, formals[i].0, formals[p].0);
    lemma_same_var(proc_name, formals[j].0, formals[q].0);
}

proof fn lemma_same_var(proc_name: Procname, a: Mangled, b: Mangled)
    requires
        a.name@ == b.name@,
    ensures
        formal_var(proc_name, a).key() == formal_var(proc_name, b).key(),
{
    let k = PvarKind::Local { proc_name };
    assert(Pvar { name: a, kind: k }.key() == Pvar { name: b, kind: k }.key());
}

proof fn lemma_last_with_name(formals: Seq<(Mangled, Typ)>, i: int) -> (p: int)
    requires
        0 <= i < formals.len(),
    ensures
        i <= p < formals.len(),
        formals[p].0.name@ == formals[i].0.name@,
        forall|j: int| p < j < formals.len() ==> (#[trigger] formals[j]).0.name@
            != formals[p].0.name@,
    decreases formals.len() - i,
{
    if exists|j: int| i < j < formals.len() && (#[trigger] formals[j]).0.name@ == formals[i].0.name@ {
        let j = choose|j: int|
            i < j < formals.len() && (#[trigger] formals[j]).0.name@ == formals[i].0.name@;
        lemma_last_with_name(formals, j)
    } else {
        i
    }
}

/// The initial state holds nothing but the formals: only their variables are bound,
/// each of their addresses is known and has no edges, no other is, there are no
/// attributes, and nothing is assumed of the path.
pub proof fn law_initial_holds_formals(
    proc_name: Procname,
    formals: Seq<(Mangled, Typ)>,
    next: int,
    v: Var,
    a: AbstractValue,
)
    requires
        i64::MIN <= next,
        next + formals.len() <= i64::MAX,
    ensures
        ({
            let d = bind_formals(blank_state(), proc_name, formals, next);
            &&& d.pre == d.post
            &&& d.post.attrs.len() == 0
            &&& d.formula.conditions.len() == 0
            &&& d.formula.phi.eqs.len() == 0 && d.formula.phi.lin.len() == 0
            &&& d.formula.phi.atoms.len() == 0 && d.formula.phi.terms.len() == 0
            &&& d.formula.phi.itvs.len() == 0 && d.formula.phi.ints.len() == 0
            &&& stack_find(d.post.stack, v) is Some ==> exists|i: int|
                0 <= i < formals.len() && v.key() == formal_var(
                    proc_name,
                    (#[trigger] formals[i]).0,
                ).key()
            &&& lookup(d.post.heap.graph, a) is Some <==> next <= a.0 < next + formals.len()
            &&& lookup(d.post.heap.graph, a) matches Some(e) ==> e.values.len() == 0
        }),
{
    lemma_initial(proc_name, formals, next, v, a);
}

} // verus!
