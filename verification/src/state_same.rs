//! When two states hold the same.
//!
//! Variables, accesses, attributes and histories are compared by their keys,
//! everything else by what it stands for.

use crate::abductive::AbductiveDomain;
use crate::abductive_model::AbductiveV;
use crate::access::Access;
use crate::attribute::{Attributes, AttributesV};
use crate::base_attrs::{AttrMapV, BaseAddressAttributes};
use crate::base_domain::{BaseDomain, BaseV};
use crate::base_memory::{BaseMemory, Edges};
use crate::base_stack::{BaseStack, StackV};
use crate::heap_model::{EdgeEntry, EdgesV, MemoryV};
use crate::key::{same_key, KeyV, Keyed};
use crate::ordered::Alike;
use crate::value_history::ValueWithHistory;
use vstd::prelude::*;

verus! {

pub open spec fn same_value(a: ValueWithHistory, b: ValueWithHistory) -> bool {
    a.addr == b.addr && a.history.key() == b.history.key()
}

pub open spec fn same_accesses(a: Seq<Access>, b: Seq<Access>) -> bool {
    a.len() == b.len() && forall|i: int|
        0 <= i < a.len() ==> (#[trigger] a[i]).key() == b[i].key()
}

pub open spec fn same_bindings(a: Seq<(KeyV, EdgeEntry)>, b: Seq<(KeyV, EdgeEntry)>) -> bool {
    a.len() == b.len() && forall|i: int|
        0 <= i < a.len() ==> (#[trigger] a[i]).1.access.key() == b[i].1.access.key() && same_value(
            a[i].1.value,
            b[i].1.value,
        )
}

/// Two sets of edges hold the same.
pub open spec fn same_edges(a: EdgesV, b: EdgesV) -> bool {
    a.limit == b.limit && same_accesses(a.new_keys, b.new_keys) && same_accesses(
        a.old_keys,
        b.old_keys,
    ) && same_bindings(a.values, b.values)
}

/// Two heaps hold the same.
pub open spec fn same_memory(a: MemoryV, b: MemoryV) -> bool {
    a.graph.len() == b.graph.len() && forall|i: int|
        0 <= i < a.graph.len() ==> (#[trigger] a.graph[i]).0 == b.graph[i].0 && same_edges(
            a.graph[i].1,
            b.graph[i].1,
        )
}

/// Two stacks hold the same.
pub open spec fn same_stack(a: StackV, b: StackV) -> bool {
    a.len() == b.len() && forall|i: int|
        0 <= i < a.len() ==> (#[trigger] a[i]).1.var.key() == b[i].1.var.key() && same_value(
            a[i].1.value,
            b[i].1.value,
        )
}

/// Two attribute sets hold the same.
pub open spec fn same_attributes(a: AttributesV, b: AttributesV) -> bool {
    a.len() == b.len() && forall|i: int|
        0 <= i < a.len() ==> (#[trigger] a[i]).1.key() == b[i].1.key()
}

/// Two attribute maps hold the same.
pub open spec fn same_attr_map(a: AttrMapV, b: AttrMapV) -> bool {
    a.len() == b.len() && forall|i: int|
        0 <= i < a.len() ==> (#[trigger] a[i]).0 == b[i].0 && same_attributes(a[i].1, b[i].1)
}

pub open spec fn same_base(a: BaseV, b: BaseV) -> bool {
    same_stack(a.stack, b.stack) && same_memory(a.heap, b.heap) && same_attr_map(a.attrs, b.attrs)
}

/// Two states hold the same.
pub open spec fn same_state(a: AbductiveV, b: AbductiveV) -> bool {
    same_base(a.pre, b.pre) && same_base(a.post, b.post) && a.formula == b.formula && a.consts
        == b.consts && a.need_types == b.need_types && a.must_be_valid == b.must_be_valid
}

fn values_same(a: &ValueWithHistory, b: &ValueWithHistory) -> (r: bool)
    ensures
        r == same_value(*a, *b),
{
    a.addr == b.addr && same_key(&a.history, &b.history)
}

fn accesses_same(a: &Vec<Access>, b: &Vec<Access>) -> (r: bool)
    ensures
        r == same_accesses(a@, b@),
{
    if a.len() != b.len() {
        return false;
    }
    let mut i: usize = 0;
    while i < a.len()
        invariant
            a@.len() == b@.len(),
            i <= a@.len(),
            forall|j: int| 0 <= j < i ==> (#[trigger] a@[j]).key() == b@[j].key(),
        decreases a@.len() - i,
    {
        if !same_key(&a[i], &b[i]) {
            assert(a@[i as int].key() != b@[i as int].key());
            return false;
        }
        i = i + 1;
    }
    true
}

fn edges_same(a: &Edges, b: &Edges) -> (r: bool)
    ensures
        r == same_edges(a@, b@),
{
    if !a.same_recency(b) || a.len() != b.len() {
        return false;
    }
    let n: usize = a.len();
    let mut i: usize = 0;
    while i < n
        invariant
            n == a@.values.len(),
            n == b@.values.len(),
            i <= n,
            forall|j: int|
                0 <= j < i ==> (#[trigger] a@.values[j]).1.access.key()
                    == b@.values[j].1.access.key() && same_value(
                    a@.values[j].1.value,
                    b@.values[j].1.value,
                ),
        decreases n - i,
    {
        if !same_key(a.access_at(i), b.access_at(i)) || !values_same(a.value_at(i), b.value_at(i)) {
            let ghost x = a@.values[i as int];
            assert(!same_bindings(a@.values, b@.values));
            return false;
        }
        i = i + 1;
    }
    true
}

impl Edges {
    /// Whether two sets of edges have the same limit and the same record of when
    /// bindings were made.
    pub fn same_recency(&self, other: &Edges) -> (r: bool)
        ensures
            r == (self@.limit == other@.limit && same_accesses(self@.new_keys, other@.new_keys)
                && same_accesses(self@.old_keys, other@.old_keys)),
    {
        let limits = match (self.get_limit(), other.get_limit()) {
            (Some(x), Some(y)) => x == y,
            (None, None) => true,
            _ => false,
        };
        limits && accesses_same(self.get_new_keys(), other.get_new_keys()) && accesses_same(
            self.get_old_keys(),
            other.get_old_keys(),
        )
    }
}

fn memory_same(a: &BaseMemory, b: &BaseMemory) -> (r: bool)
    ensures
        r == same_memory(a@, b@),
{
    if a.len() != b.len() {
        return false;
    }
    let n: usize = a.len();
    let mut i: usize = 0;
    while i < n
        invariant
            n == a@.graph.len(),
            n == b@.graph.len(),
            i <= n,
            forall|j: int|
                0 <= j < i ==> (#[trigger] a@.graph[j]).0 == b@.graph[j].0 && same_edges(
                    a@.graph[j].1,
                    b@.graph[j].1,
                ),
        decreases n - i,
    {
        if a.address_at(i) != b.address_at(i) || !edges_same(
            a.edges_at_position(i),
            b.edges_at_position(i),
        ) {
            let ghost x = a@.graph[i as int];
            return false;
        }
        i = i + 1;
    }
    true
}

fn stack_same(a: &BaseStack, b: &BaseStack) -> (r: bool)
    ensures
        r == same_stack(a@, b@),
{
    if a.len() != b.len() {
        return false;
    }
    let n: usize = a.len();
    let mut i: usize = 0;
    while i < n
        invariant
            n == a@.len(),
            n == b@.len(),
            i <= n,
            forall|j: int|
                0 <= j < i ==> (#[trigger] a@[j]).1.var.key() == b@[j].1.var.key() && same_value(
                    a@[j].1.value,
                    b@[j].1.value,
                ),
        decreases n - i,
    {
        if !same_key(a.var_at(i), b.var_at(i)) || !values_same(a.value_at(i), b.value_at(i)) {
            let ghost x = a@[i as int];
            return false;
        }
        i = i + 1;
    }
    true
}

fn attributes_same(a: &Attributes, b: &Attributes) -> (r: bool)
    ensures
        r == same_attributes(a@, b@),
{
    if a.len() != b.len() {
        return false;
    }
    let n: usize = a.len();
    let mut i: usize = 0;
    while i < n
        invariant
            n == a@.len(),
            n == b@.len(),
            i <= n,
            forall|j: int| 0 <= j < i ==> (#[trigger] a@[j]).1.key() == b@[j].1.key(),
        decreases n - i,
    {
        if !same_key(a.at(i), b.at(i)) {
            let ghost x = a@[i as int];
            return false;
        }
        i = i + 1;
    }
    true
}

fn attr_map_same(a: &BaseAddressAttributes, b: &BaseAddressAttributes) -> (r: bool)
    ensures
        r == same_attr_map(a@, b@),
{
    if a.len() != b.len() {
        return false;
    }
    let n: usize = a.len();
    let mut i: usize = 0;
    while i < n
        invariant
            n == a@.len(),
            n == b@.len(),
            i <= n,
            forall|j: int|
                0 <= j < i ==> (#[trigger] a@[j]).0 == b@[j].0 && same_attributes(
                    a@[j].1,
                    b@[j].1,
                ),
        decreases n - i,
    {
        if a.address_at(i) != b.address_at(i) || !attributes_same(
            a.attributes_at(i),
            b.attributes_at(i),
        ) {
            let ghost x = a@[i as int];
            return false;
        }
        i = i + 1;
    }
    true
}

fn base_same(a: &BaseDomain, b: &BaseDomain) -> (r: bool)
    ensures
        r == same_base(a@, b@),
{
    stack_same(&a.stack, &b.stack) && memory_same(&a.heap, &b.heap) && attr_map_same(
        &a.attrs,
        &b.attrs,
    )
}

impl AbductiveDomain {
    /// Whether two states hold the same.
    pub fn same(&self, other: &AbductiveDomain) -> (r: bool)
        ensures
            r == same_state(self@, other@),
    {
        base_same(&self.pre, &other.pre) && base_same(&self.post, &other.post)
            && self.path_condition.alike(&other.path_condition) && self.const_cache.alike(
            &other.const_cache,
        ) && self.need_dynamic_type_specialization.alike(&other.need_dynamic_type_specialization)
            && self.must_be_valid.alike(&other.must_be_valid)
    }
}

/// A state holds the same as itself, and holding the same is symmetric and
/// transitive.
pub proof fn law_same_state(a: AbductiveV, b: AbductiveV, c: AbductiveV)
    ensures
        same_state(a, a),
        same_state(a, b) ==> same_state(b, a),
        same_state(a, b) && same_state(b, c) ==> same_state(a, c),
{
    if same_state(a, b) {
        law_same_base_symmetric(a.pre, b.pre);
        law_same_base_symmetric(a.post, b.post);
        if same_state(b, c) {
            law_same_base_transitive(a.pre, b.pre, c.pre);
            law_same_base_transitive(a.post, b.post, c.post);
        }
    }
}

proof fn law_same_base_symmetric(a: BaseV, b: BaseV)
    requires
        same_base(a, b),
    ensures
        same_base(b, a),
{
    assert forall|i: int| 0 <= i < b.heap.graph.len() implies (#[trigger] b.heap.graph[i]).0
        == a.heap.graph[i].0 && same_edges(b.heap.graph[i].1, a.heap.graph[i].1) by {
        let x = a.heap.graph[i].1;
        let y = b.heap.graph[i].1;
        assert(same_edges(x, y));
        assert forall|j: int| 0 <= j < y.new_keys.len() implies (#[trigger] y.new_keys[j]).key()
            == x.new_keys[j].key() by {
            assert(x.new_keys[j].key() == y.new_keys[j].key());
        }
        assert forall|j: int| 0 <= j < y.old_keys.len() implies (#[trigger] y.old_keys[j]).key()
            == x.old_keys[j].key() by {
            assert(x.old_keys[j].key() == y.old_keys[j].key());
        }
        assert forall|j: int|
            0 <= j < y.values.len() implies (#[trigger] y.values[j]).1.access.key()
            == x.values[j].1.access.key() && same_value(
            y.values[j].1.value,
            x.values[j].1.value,
        ) by {
            assert(x.values[j].1.access.key() == y.values[j].1.access.key());
        }
    }
    assert forall|i: int| 0 <= i < b.stack.len() implies (#[trigger] b.stack[i]).1.var.key()
        == a.stack[i].1.var.key() && same_value(b.stack[i].1.value, a.stack[i].1.value) by {
        assert(a.stack[i].1.var.key() == b.stack[i].1.var.key());
    }
    assert forall|i: int| 0 <= i < b.attrs.len() implies (#[trigger] b.attrs[i]).0 == a.attrs[i].0
        && same_attributes(b.attrs[i].1, a.attrs[i].1) by {
        let x = a.attrs[i].1;
        let y = b.attrs[i].1;
        assert(same_attributes(x, y));
        assert forall|j: int| 0 <= j < y.len() implies (#[trigger] y[j]).1.key() == x[j].1.key() by {
            assert(x[j].1.key() == y[j].1.key());
        }
    }
}

proof fn law_same_base_transitive(a: BaseV, b: BaseV, c: BaseV)
    requires
        same_base(a, b),
        same_base(b, c),
    ensures
        same_base(a, c),
{
    assert forall|i: int| 0 <= i < a.heap.graph.len() implies (#[trigger] a.heap.graph[i]).0
        == c.heap.graph[i].0 && same_edges(a.heap.graph[i].1, c.heap.graph[i].1) by {
        let x = a.heap.graph[i].1;
        let y = b.heap.graph[i].1;
        let z = c.heap.graph[i].1;
        assert(same_edges(x, y));
        assert(b.heap.graph[i].0 == c.heap.graph[i].0);
        assert(same_edges(y, z));
        assert forall|j: int| 0 <= j < x.new_keys.len() implies (#[trigger] x.new_keys[j]).key()
            == z.new_keys[j].key() by {
            assert(y.new_keys[j].key() == z.new_keys[j].key());
        }
        assert forall|j: int| 0 <= j < x.old_keys.len() implies (#[trigger] x.old_keys[j]).key()
            == z.old_keys[j].key() by {
            assert(y.old_keys[j].key() == z.old_keys[j].key());
        }
        assert forall|j: int|
            0 <= j < x.values.len() implies (#[trigger] x.values[j]).1.access.key()
            == z.values[j].1.access.key() && same_value(
            x.values[j].1.value,
            z.values[j].1.value,
        ) by {
            assert(y.values[j].1.access.key() == z.values[j].1.access.key());
        }
    }
    assert forall|i: int| 0 <= i < a.stack.len() implies (#[trigger] a.stack[i]).1.var.key()
        == c.stack[i].1.var.key() && same_value(a.stack[i].1.value, c.stack[i].1.value) by {
        assert(b.stack[i].1.var.key() == c.stack[i].1.var.key());
    }
    assert forall|i: int| 0 <= i < a.attrs.len() implies (#[trigger] a.attrs[i]).0 == c.attrs[i].0
        && same_attributes(a.attrs[i].1, c.attrs[i].1) by {
        let x = a.attrs[i].1;
        let y = b.attrs[i].1;
        let z = c.attrs[i].1;
        assert(same_attributes(x, y));
        assert(b.attrs[i].0 == c.attrs[i].0);
        assert(same_attributes(y, z));
        assert forall|j: int| 0 <= j < x.len() implies (#[trigger] x[j]).1.key() == z[j].1.key() by {
            assert(y[j].1.key() == z[j].1.key());
        }
    }
}

} // verus!
