//! What single steps change in a state, and what they leave alone.

use crate::abductive_model::{
    after_read, after_write, canonicalized, edge_count, evaluated, havoc_edges, havocked,
    havocked_heap, plain, repr_in, AbductiveV,
};
use crate::abstract_value::AbstractValue;
use crate::access::Access;
use crate::base_stack::{stack_find, stack_subst, StackEntry, StackV};
use crate::edge_laws::{in_newest_batch, law_rebinding_keeps_all};
use crate::formula::Operand;
use crate::formula::formula_model::operand_int;
use crate::formula::progress_laws::in_order;
use crate::heap_laws::{
    edges_wf, law_find_after_add, law_memory_add_wf, law_memory_write_elsewhere, memory_wf,
};
use crate::heap_model::{
    add_edge, edges_at, find_edge, memory_add, memory_find, EdgeEntry, EdgesV, MemoryV,
};
use crate::heap_reach::reachable_set;
use crate::key::{Key, KeyV, Keyed};
use crate::ordered::{
    lemma_lookup_at, lemma_lookup_has_key, lemma_lookup_put, lookup, sorted, OrdKey,
};
use crate::sil::Var;
use crate::state_laws::{law_equal_values_in_state, law_stack_find_added};
use crate::value_history::ValueWithHistory;
use vstd::prelude::*;

verus! {

proof fn lemma_edges_at(m: MemoryV, a: AbstractValue)
    requires
        memory_wf(m),
    ensures
        edges_wf(edges_at(m, a)),
        find_edge(edges_at(m, a), Access::Dereference) == memory_find(m, a, Access::Dereference),
{
    lemma_lookup_has_key(m.graph, a);
}

/// The edges of an address after they were set to fresh values one by one, and those
/// of every other address.
proof fn lemma_havoc_edges(
    h: MemoryV,
    addr: AbstractValue,
    s: Seq<(KeyV, EdgeEntry)>,
    next: int,
    a: Access,
    other: AbstractValue,
)
    requires
        memory_wf(h),
        i64::MIN <= next,
        next + s.len() <= i64::MAX,
    ensures
        ({
            let r = havoc_edges(h, addr, s, next);
            &&& memory_wf(r)
            &&& r.limit == h.limit
            &&& other != addr ==> lookup(r.graph, other) == lookup(h.graph, other)
            &&& memory_find(r, addr, a) matches Some(v) ==> {
                ||| memory_find(h, addr, a) == Some(v) && forall|i: int|
                    0 <= i < s.len() ==> (#[trigger] s[i]).1.access.order() != a.order()
                ||| exists|i: int|
                    0 <= i < s.len() && (#[trigger] s[i]).1.access.order() == a.order()
                        && v.addr.0 == next + i && v == plain(v.addr)
            }
        }),
    decreases s.len(),
{
    if s.len() > 0 {
        let t = s.drop_last();
        let last = s.len() - 1;
        let before = havoc_edges(h, addr, t, next);
        let value = plain(AbstractValue((next + s.len() - 1) as i64));
        let access = s.last().1.access;
        lemma_havoc_edges(h, addr, t, next, a, other);
        law_memory_add_wf(before, addr, access, value);
        let e = edges_at(before, addr);
        lemma_edges_at(before, addr);
        lemma_lookup_put::<AbstractValue, EdgesV>(
            before.graph,
            addr,
            add_edge(e, access, value),
            other,
        );
        lemma_lookup_put::<AbstractValue, EdgesV>(
            before.graph,
            addr,
            add_edge(e, access, value),
            addr,
        );
        law_find_after_add(e, access, value, a);
        let r = havoc_edges(h, addr, s, next);
        if let Some(v) = memory_find(r, addr, a) {
            if a.order() == access.order() {
                assert(s[last].1.access.order() == a.order());
            } else {
                assert(memory_find(before, addr, a) == Some(v));
                if exists|i: int|
                    0 <= i < t.len() && (#[trigger] t[i]).1.access.order() == a.order() && v.addr.0
                        == next + i && v == plain(v.addr) {
                    let i = choose|i: int|
                        0 <= i < t.len() && (#[trigger] t[i]).1.access.order() == a.order()
                            && v.addr.0 == next + i && v == plain(v.addr);
                    assert(s[i] == t[i]);
                } else {
                    assert forall|i: int| 0 <= i < s.len() implies (
                    #[trigger] s[i]).1.access.order() != a.order() by {
                        if i < t.len() {
                            assert(t[i] == s[i]);
                        }
                    }
                }
            }
        }
    }
}

/// Setting all edges of an address to fresh values leaves no other target, gives
/// different edges different targets, and changes no other address.
pub proof fn law_havoc_edges(
    h: MemoryV,
    addr: AbstractValue,
    next: int,
    a: Access,
    b: Access,
    other: AbstractValue,
)
    requires
        memory_wf(h),
        i64::MIN <= next,
        next + edges_at(h, addr).values.len() <= i64::MAX,
    ensures
        ({
            let s = edges_at(h, addr).values;
            let r = havoc_edges(h, addr, s, next);
            &&& memory_wf(r)
            &&& other != addr ==> lookup(r.graph, other) == lookup(h.graph, other)
            &&& memory_find(r, addr, a) matches Some(v) ==> next <= v.addr.0 < next + s.len() && v
                == plain(v.addr)
            &&& memory_find(r, addr, a) is Some ==> memory_find(h, addr, a) is Some
            &&& memory_find(r, addr, a) is Some && memory_find(r, addr, a) == memory_find(
                r,
                addr,
                b,
            ) ==> a.order() == b.order()
        }),
{
    let s = edges_at(h, addr).values;
    let r = havoc_edges(h, addr, s, next);
    lemma_edges_at(h, addr);
    lemma_havoc_edges(h, addr, s, next, a, other);
    lemma_havoc_edges(h, addr, s, next, b, other);
    lemma_lookup_has_key(s, a.order());
    lemma_lookup_has_key(s, b.order());
    if let Some(v) = memory_find(h, addr, a) {
        let i = choose|i: int| 0 <= i < s.len() && (#[trigger] s[i]).0 == a.order();
        assert(s[i].1.access.order() == a.order());
    }
    if let Some(v) = memory_find(h, addr, b) {
        let i = choose|i: int| 0 <= i < s.len() && (#[trigger] s[i]).0 == b.order();
        assert(s[i].1.access.order() == b.order());
    }
    if memory_find(r, addr, a) is Some {
        let v = memory_find(r, addr, a)->0;
        let i = choose|i: int|
            0 <= i < s.len() && (#[trigger] s[i]).1.access.order() == a.order() && v.addr.0 == next
                + i && v == plain(v.addr);
        lemma_lookup_at::<Key, EdgeEntry>(s, i);
        if memory_find(r, addr, b) == Some(v) {
            let j = choose|j: int|
                0 <= j < s.len() && (#[trigger] s[j]).1.access.order() == b.order() && v.addr.0
                    == next + j && v == plain(v.addr);
            assert(i == j);
        }
    }
}

/// Addresses that are not among those given keep their edges; the edges of those that
/// are lead to fresh values.
pub proof fn law_havocked_heap(
    h: MemoryV,
    s: Seq<AbstractValue>,
    next: int,
    x: AbstractValue,
    a: Access,
)
    requires
        memory_wf(h),
        i64::MIN <= next,
        next + edge_count(h, s, next) <= i64::MAX,
    ensures
        memory_wf(havocked_heap(h, s, next)),
        !s.contains(x) ==> lookup(havocked_heap(h, s, next).graph, x) == lookup(h.graph, x),
        s.contains(x) ==> (memory_find(havocked_heap(h, s, next), x, a) matches Some(v) ==> next
            <= v.addr.0 < next + edge_count(h, s, next) && v == plain(v.addr)),
    decreases s.len(),
{
    if s.len() > 0 {
        let t = s.drop_last();
        let before = havocked_heap(h, t, next);
        let n = next + edge_count(h, t, next);
        law_havocked_heap(h, t, next, x, a);
        law_havoc_edges(before, s.last(), n, a, a, x);
        if x != s.last() {
            if s.contains(x) {
                let i = choose|i: int| 0 <= i < s.len() && s[i] == x;
                assert(t[i] == x);
            }
            if t.contains(x) {
                let i = choose|i: int| 0 <= i < t.len() && t[i] == x;
                assert(s[i] == x);
            }
        } else {
            assert(s[s.len() - 1] == x);
        }
    }
}

/// After an unknown call what its argument leads to has only fresh targets; every
/// other address has its edges, and variables, assumptions and the path condition are
/// as before.
pub proof fn law_unknown_call(
    d: AbductiveV,
    addr: AbstractValue,
    next: int,
    x: AbstractValue,
    a: Access,
)
    requires
        memory_wf(d.post.heap),
        i64::MIN <= next,
        next + edge_count(d.post.heap, reachable_set(d.post.heap.graph, addr), next) <= i64::MAX,
    ensures
        ({
            let r = havocked(d, addr, next);
            &&& r.pre == d.pre && r.post.stack == d.post.stack && r.formula == d.formula
            &&& if reachable_set(d.post.heap.graph, addr).contains(x) {
                memory_find(r.post.heap, x, a) matches Some(v) ==> next <= v.addr.0 && v == plain(
                    v.addr,
                )
            } else {
                lookup(r.post.heap.graph, x) == lookup(d.post.heap.graph, x)
            }
        }),
{
    law_havocked_heap(d.post.heap, reachable_set(d.post.heap.graph, addr), next, x, a);
}

/// Evaluating a variable binds it where it is not bound, and changes nothing else.
pub proof fn law_evaluated(d: AbductiveV, var: Var, addr: AbstractValue, other: Var)
    requires
        sorted::<Key, StackEntry>(d.post.stack),
    ensures
        ({
            let r = evaluated(d, var, addr);
            &&& stack_find(r.post.stack, var) == match stack_find(d.post.stack, var) {
                Some(v) => Some(v),
                None => Some(plain(addr)),
            }
            &&& other.key() != var.key() ==> stack_find(r.post.stack, other) == stack_find(
                d.post.stack,
                other,
            )
            &&& r.post.heap == d.post.heap && r.post.attrs == d.post.attrs && r.formula == d.formula
        }),
{
    law_stack_find_added(d.post.stack, var, plain(addr), var);
    law_stack_find_added(d.post.stack, var, plain(addr), other);
}

/// Reading and writing an edge touch no edge of another address, no variable, no
/// attribute and not the path condition. A read that finds no edge makes one to the
/// fresh value, with the history of where it was read from.
pub proof fn law_access_elsewhere(
    d: AbductiveV,
    src: ValueWithHistory,
    access: Access,
    value: ValueWithHistory,
    other: AbstractValue,
    b: Access,
)
    requires
        memory_wf(d.post.heap),
        memory_wf(d.pre.heap),
        other != src.addr,
    ensures
        ({
            let w = after_write(d, src.addr, access, value);
            let r = after_read(d, src, access, value.addr);
            &&& memory_find(w.post.heap, other, b) == memory_find(d.post.heap, other, b)
            &&& memory_find(r.post.heap, other, b) == memory_find(d.post.heap, other, b)
            &&& memory_find(r.pre.heap, other, b) == memory_find(d.pre.heap, other, b)
            &&& w.post.stack == d.post.stack && r.post.stack == d.post.stack
            &&& w.post.attrs == d.post.attrs && r.post.attrs == d.post.attrs
            &&& w.formula == d.formula && r.formula == d.formula
        }),
{
    law_memory_write_elsewhere(d.post.heap, src.addr, access, value, other, b);
    let v = ValueWithHistory { addr: value.addr, history: src.history };
    law_memory_write_elsewhere(d.post.heap, src.addr, access, v, other, b);
    law_memory_write_elsewhere(d.pre.heap, src.addr, access, v, other, b);
    let h = memory_add(d.pre.heap, src.addr, access, v);
    law_memory_add_wf(d.pre.heap, src.addr, access, v);
    if lookup(h.graph, value.addr) is None {
        lemma_lookup_put::<AbstractValue, EdgesV>(
            h.graph,
            value.addr,
            crate::heap_model::no_edges(h.limit),
            other,
        );
    }
}

/// Replacing a value replaces it where a variable is bound to it, and keeps the
/// history.
pub proof fn law_stack_subst(
    s: StackV,
    old_value: AbstractValue,
    new_value: AbstractValue,
    var: Var,
)
    requires
        sorted::<Key, StackEntry>(s),
    ensures
        stack_find(stack_subst(s, old_value, new_value), var) == match stack_find(s, var) {
            None => None,
            Some(v) => Some(
                ValueWithHistory {
                    addr: if v.addr == old_value {
                        new_value
                    } else {
                        v.addr
                    },
                    history: v.history,
                },
            ),
        },
{
    let t = stack_subst(s, old_value, new_value);
    assert forall|i: int, j: int| 0 <= i < j < t.len() implies <Key as OrdKey>::lt(
        (#[trigger] t[i]).0,
        (#[trigger] t[j]).0,
    ) by {
        assert(<Key as OrdKey>::lt(s[i].0, s[j].0));
    }
    lemma_lookup_has_key(s, var.key());
    lemma_lookup_has_key(t, var.key());
    if let Some(e) = lookup(s, var.key()) {
        let i = choose|i: int| 0 <= i < s.len() && (#[trigger] s[i]) == (var.key(), e);
        lemma_lookup_at::<Key, StackEntry>(t, i);
        assert(t[i].0 == var.key());
    } else if let Some(e) = lookup(t, var.key()) {
        let i = choose|i: int| 0 <= i < t.len() && (#[trigger] t[i]) == (var.key(), e);
        assert(s[i].0 == var.key());
    }
}

/// An index that is a known constant gets the representative of the value that was
/// first seen for that constant, which is then its own; the first value seen is
/// remembered. Any other index gets its own representative and changes nothing.
pub proof fn law_index_canonicalized(d: AbductiveV, v: AbstractValue)
    requires
        in_order(d.formula.phi),
        sorted::<i64, AbstractValue>(d.consts),
    ensures
        canonicalized(d, v) matches Some((after, r)) ==> {
            &&& r == repr_in(after, v)
            &&& operand_int(d.formula.phi, Operand::AbstractValue(v)) matches Some(c) ==> match lookup(
                d.consts,
                c,
            ) {
                Some(first) => repr_in(after, first) == r,
                None => lookup(after.consts, c) == Some(v) && after.formula == d.formula,
            }
            &&& operand_int(d.formula.phi, Operand::AbstractValue(v)) is None ==> after == d
        },
{
    if let Some(c) = operand_int(d.formula.phi, Operand::AbstractValue(v)) {
        match lookup(d.consts, c) {
            Some(first) => {
                if first != v {
                    law_equal_values_in_state(d, v, first);
                }
            },
            None => {
                lemma_lookup_put::<i64, AbstractValue>(d.consts, c, v, c);
            },
        }
    }
}

proof fn lemma_havoc_keeps(
    h: MemoryV,
    addr: AbstractValue,
    s: Seq<(KeyV, EdgeEntry)>,
    next: int,
    b: Access,
)
    requires
        memory_wf(h),
        in_newest_batch(edges_at(h, addr)),
        s.is_prefix_of(edges_at(h, addr).values),
        i64::MIN <= next,
        next + s.len() <= i64::MAX,
    ensures
        ({
            let e = edges_at(havoc_edges(h, addr, s, next), addr);
            &&& memory_wf(havoc_edges(h, addr, s, next))
            &&& in_newest_batch(e)
            &&& lookup(edges_at(h, addr).values, b.order()) matches Some(x) ==> (lookup(
                e.values,
                b.order(),
            ) matches Some(y) && y.access == x.access)
        }),
    decreases s.len(),
{
    if s.len() > 0 {
        let t = s.drop_last();
        let last = s.len() - 1;
        let start = edges_at(h, addr);
        assert(t.is_prefix_of(start.values));
        let before = havoc_edges(h, addr, t, next);
        let e = edges_at(before, addr);
        let access = s.last().1.access;
        let value = plain(AbstractValue((next + s.len() - 1) as i64));
        lemma_edges_at(h, addr);
        lemma_havoc_keeps(h, addr, t, next, b);
        lemma_havoc_keeps(h, addr, t, next, access);
        lemma_lookup_at::<Key, EdgeEntry>(start.values, last);
        assert(start.values[last] == s.last());
        lemma_edges_at(before, addr);
        lemma_lookup_has_key(e.values, access.order());
        let x = lookup(e.values, access.order())->0;
        let k = choose|k: int|
            0 <= k < e.values.len() && (#[trigger] e.values[k]) == (access.order(), x);
        assert(e.values[k].1.access == access);
        law_memory_add_wf(before, addr, access, value);
        law_rebinding_keeps_all(e, k, value, b);
        lemma_lookup_put::<AbstractValue, EdgesV>(
            before.graph,
            addr,
            add_edge(e, access, value),
            addr,
        );
    }
}

/// Setting the edges of an address to fresh values, where all are in its newest batch,
/// drops none: each access still has a target.
pub proof fn law_havoc_keeps_edges(h: MemoryV, addr: AbstractValue, next: int, b: Access)
    requires
        memory_wf(h),
        in_newest_batch(edges_at(h, addr)),
        i64::MIN <= next,
        next + edges_at(h, addr).values.len() <= i64::MAX,
        memory_find(h, addr, b) is Some,
    ensures
        memory_find(havoc_edges(h, addr, edges_at(h, addr).values, next), addr, b) is Some,
{
    let s = edges_at(h, addr).values;
    lemma_havoc_keeps(h, addr, s, next, b);
}

} // verus!
