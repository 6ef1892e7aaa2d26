//! States that hold the same cannot be told apart.

use crate::abductive_model::AbductiveV;
use crate::abstract_value::AbstractValue;
use crate::access::Access;
use crate::attribute::{has_kind, AttributeKind, AttributesV};
use crate::base_attrs::{attrs_at, AttrMapV};
use crate::base_stack::{stack_find, StackEntry, StackV};
use crate::heap_laws::{edges_wf, law_key_gives_order, memory_wf};
use crate::heap_model::{find_edge, memory_find, EdgeEntry, EdgesV, MemoryV};
use crate::key::{Key, Keyed};
use crate::ordered::{lemma_lookup_at, lemma_lookup_has_key, lookup, sorted};
use crate::sil::Var;
use crate::state_laws::{attr_map_wf, law_key_gives_kind, lemma_has_kind};
use crate::state_same::{
    same_attr_map, same_attributes, same_edges, same_memory, same_stack, same_state,
};
use vstd::prelude::*;

verus! {

/// Each binding is found under the key of its variable.
pub open spec fn stack_wf(s: StackV) -> bool {
    &&& sorted::<Key, StackEntry>(s)
    &&& forall|i: int| 0 <= i < s.len() ==> (#[trigger] s[i]).1.var.key() == s[i].0
}

proof fn lemma_same_stack(a: StackV, b: StackV, var: Var)
    requires
        stack_wf(a),
        stack_wf(b),
        same_stack(a, b),
    ensures
        match (stack_find(a, var), stack_find(b, var)) {
            (Some(v), Some(w)) => v.addr == w.addr && v.history.key() == w.history.key(),
            (None, None) => true,
            _ => false,
        },
{
    lemma_lookup_has_key(a, var.key());
    lemma_lookup_has_key(b, var.key());
    if let Some(x) = lookup(a, var.key()) {
        let i = choose|i: int| 0 <= i < a.len() && (#[trigger] a[i]) == (var.key(), x);
        assert(a[i].1.var.key() == b[i].1.var.key());
        assert(b[i].1.var.key() == b[i].0);
        lemma_lookup_at::<Key, StackEntry>(b, i);
    } else if let Some(y) = lookup(b, var.key()) {
        let i = choose|i: int| 0 <= i < b.len() && (#[trigger] b[i]) == (var.key(), y);
        assert(a[i].1.var.key() == b[i].1.var.key());
        assert(a[i].1.var.key() == a[i].0);
    }
}

proof fn lemma_same_edges(a: EdgesV, b: EdgesV, access: Access)
    requires
        edges_wf(a),
        edges_wf(b),
        same_edges(a, b),
    ensures
        match (find_edge(a, access), find_edge(b, access)) {
            (Some(v), Some(w)) => v.addr == w.addr && v.history.key() == w.history.key(),
            (None, None) => true,
            _ => false,
        },
{
    let k = access.order();
    lemma_lookup_has_key(a.values, k);
    lemma_lookup_has_key(b.values, k);
    if let Some(x) = lookup(a.values, k) {
        let i = choose|i: int| 0 <= i < a.values.len() && (#[trigger] a.values[i]) == (k, x);
        assert(a.values[i].1.access.key() == b.values[i].1.access.key());
        law_key_gives_order(a.values[i].1.access, b.values[i].1.access);
        lemma_lookup_at::<Key, EdgeEntry>(b.values, i);
    } else if let Some(y) = lookup(b.values, k) {
        let i = choose|i: int| 0 <= i < b.values.len() && (#[trigger] b.values[i]) == (k, y);
        assert(a.values[i].1.access.key() == b.values[i].1.access.key());
        law_key_gives_order(a.values[i].1.access, b.values[i].1.access);
        assert(a.values[i].0 == k);
    }
}

proof fn lemma_same_memory(a: MemoryV, b: MemoryV, src: AbstractValue, access: Access)
    requires
        memory_wf(a),
        memory_wf(b),
        same_memory(a, b),
    ensures
        match (memory_find(a, src, access), memory_find(b, src, access)) {
            (Some(v), Some(w)) => v.addr == w.addr && v.history.key() == w.history.key(),
            (None, None) => true,
            _ => false,
        },
{
    lemma_lookup_has_key(a.graph, src);
    lemma_lookup_has_key(b.graph, src);
    if let Some(x) = lookup(a.graph, src) {
        let i = choose|i: int| 0 <= i < a.graph.len() && (#[trigger] a.graph[i]) == (src, x);
        assert(a.graph[i].0 == b.graph[i].0);
        assert(edges_wf(a.graph[i].1) && edges_wf(b.graph[i].1));
        lemma_lookup_at::<AbstractValue, EdgesV>(b.graph, i);
        lemma_same_edges(x, b.graph[i].1, access);
    } else if let Some(y) = lookup(b.graph, src) {
        let i = choose|i: int| 0 <= i < b.graph.len() && (#[trigger] b.graph[i]) == (src, y);
        assert(a.graph[i].0 == b.graph[i].0);
    }
}

proof fn lemma_same_kinds(a: AttributesV, b: AttributesV, k: AttributeKind)
    requires
        same_attributes(a, b),
    ensures
        has_kind(a, k) == has_kind(b, k),
{
    lemma_has_kind(a, k);
    lemma_has_kind(b, k);
    if has_kind(a, k) {
        let i = choose|i: int| 0 <= i < a.len() && (#[trigger] a[i]).1.kind() == k;
        law_key_gives_kind(a[i].1, b[i].1);
        assert(b[i].1.kind() == k);
    }
    if has_kind(b, k) {
        let i = choose|i: int| 0 <= i < b.len() && (#[trigger] b[i]).1.kind() == k;
        assert(a[i].1.key() == b[i].1.key());
        law_key_gives_kind(a[i].1, b[i].1);
    }
}

proof fn lemma_same_attrs(a: AttrMapV, b: AttrMapV, x: AbstractValue, k: AttributeKind)
    requires
        attr_map_wf(a),
        attr_map_wf(b),
        same_attr_map(a, b),
    ensures
        has_kind(attrs_at(a, x), k) == has_kind(attrs_at(b, x), k),
{
    lemma_lookup_has_key(a, x);
    lemma_lookup_has_key(b, x);
    if let Some(s) = lookup(a, x) {
        let i = choose|i: int| 0 <= i < a.len() && (#[trigger] a[i]) == (x, s);
        assert(a[i].0 == b[i].0);
        lemma_lookup_at::<AbstractValue, AttributesV>(b, i);
        lemma_same_kinds(s, b[i].1, k);
    } else if let Some(s) = lookup(b, x) {
        let i = choose|i: int| 0 <= i < b.len() && (#[trigger] b[i]) == (x, s);
        assert(a[i].0 == b[i].0);
    }
}

/// States that hold the same bind every variable to the same address, have the same
/// edges and attributes everywhere, before and after, and the same path condition.
pub proof fn law_same_states_agree(
    a: AbductiveV,
    b: AbductiveV,
    var: Var,
    src: AbstractValue,
    access: Access,
    k: AttributeKind,
)
    requires
        same_state(a, b),
        stack_wf(a.post.stack) && stack_wf(b.post.stack),
        stack_wf(a.pre.stack) && stack_wf(b.pre.stack),
        memory_wf(a.post.heap) && memory_wf(b.post.heap),
        memory_wf(a.pre.heap) && memory_wf(b.pre.heap),
        attr_map_wf(a.post.attrs) && attr_map_wf(b.post.attrs),
        attr_map_wf(a.pre.attrs) && attr_map_wf(b.pre.attrs),
    ensures
        a.formula == b.formula,
        (stack_find(a.post.stack, var) is Some) == (stack_find(b.post.stack, var) is Some),
        stack_find(a.post.stack, var) matches Some(v) ==> v.addr == (stack_find(
            b.post.stack,
            var,
        )->0).addr,
        (stack_find(a.pre.stack, var) is Some) == (stack_find(b.pre.stack, var) is Some),
        stack_find(a.pre.stack, var) matches Some(v) ==> v.addr == (stack_find(
            b.pre.stack,
            var,
        )->0).addr,
        (memory_find(a.post.heap, src, access) is Some) == (memory_find(
            b.post.heap,
            src,
            access,
        ) is Some),
        memory_find(a.post.heap, src, access) matches Some(v) ==> v.addr == (memory_find(
            b.post.heap,
            src,
            access,
        )->0).addr,
        memory_find(a.pre.heap, src, access) matches Some(v) ==> memory_find(
            b.pre.heap,
            src,
            access,
        ) is Some && v.addr == (memory_find(b.pre.heap, src, access)->0).addr,
        has_kind(attrs_at(a.post.attrs, src), k) == has_kind(attrs_at(b.post.attrs, src), k),
        has_kind(attrs_at(a.pre.attrs, src), k) == has_kind(attrs_at(b.pre.attrs, src), k),
{
    lemma_same_stack(a.post.stack, b.post.stack, var);
    lemma_same_stack(a.pre.stack, b.pre.stack, var);
    lemma_same_memory(a.post.heap, b.post.heap, src, access);
    lemma_same_memory(a.pre.heap, b.pre.heap, src, access);
    lemma_same_attrs(a.post.attrs, b.post.attrs, src, k);
    lemma_same_attrs(a.pre.attrs, b.pre.attrs, src, k);
}

} // verus!
