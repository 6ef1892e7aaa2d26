//! Base domain: the composite abstract state (stack + heap + attributes).

use crate::abstract_value::AbstractValue;
use crate::attribute::{Attribute, Attributes, AttributesV};
use crate::base_attrs::{attrs_at, attrs_subst, AttrMapV, BaseAddressAttributes};
use crate::base_memory::{BaseMemory, Edges};
use crate::base_stack::{stack_subst, BaseStack, StackV};
use crate::heap_model::{edges_at, memory_subst, memory_subst_or_unsat, EdgeEntry, EdgesV, MemoryV};
use crate::key::KeyV;
use crate::ordered::Dup;
use crate::sat_unsat::SatUnsat;
use crate::value_history::ValueHistory;
use vstd::prelude::*;

verus! {

/// A state: stack, heap, and address attributes.
#[verifier::ext_equal]
pub struct BaseV {
    pub stack: StackV,
    pub heap: MemoryV,
    pub attrs: AttrMapV,
}

/// A test on abstract values that can be computed.
pub trait ValueTest {
    spec fn holds(&self, v: AbstractValue) -> bool;

    fn test(&self, v: AbstractValue) -> (b: bool)
        ensures
            b == self.holds(v),
    ;
}

/// The test that `t` computes.
pub open spec fn test_fn<T: ValueTest>(t: T) -> spec_fn(AbstractValue) -> bool {
    |v: AbstractValue| t.holds(v)
}

/// `acc` merged with `h`.
pub open spec fn and_history(acc: Option<ValueHistory>, h: ValueHistory) -> Option<ValueHistory> {
    match acc {
        Some(existing) => Some(existing.merged(h)),
        None => Some(h),
    }
}

/// `acc` merged with the histories of the variables bound to a value that passes.
pub open spec fn stack_history(
    s: StackV,
    p: spec_fn(AbstractValue) -> bool,
    acc: Option<ValueHistory>,
) -> Option<ValueHistory>
    decreases s.len(),
{
    if s.len() == 0 {
        acc
    } else {
        let v = s[0].1.value;
        stack_history(
            s.drop_first(),
            p,
            if p(v.addr) {
                and_history(acc, v.history)
            } else {
                acc
            },
        )
    }
}

/// `acc` merged with the histories of the edges to a value that passes.
pub open spec fn edges_history(
    s: Seq<(KeyV, EdgeEntry)>,
    p: spec_fn(AbstractValue) -> bool,
    acc: Option<ValueHistory>,
) -> Option<ValueHistory>
    decreases s.len(),
{
    if s.len() == 0 {
        acc
    } else {
        let v = s[0].1.value;
        edges_history(
            s.drop_first(),
            p,
            if p(v.addr) {
                and_history(acc, v.history)
            } else {
                acc
            },
        )
    }
}

/// `acc` merged with the histories of all edges to a value that passes.
pub open spec fn graph_history(
    g: Seq<(AbstractValue, EdgesV)>,
    p: spec_fn(AbstractValue) -> bool,
    acc: Option<ValueHistory>,
) -> Option<ValueHistory>
    decreases g.len(),
{
    if g.len() == 0 {
        acc
    } else {
        graph_history(g.drop_first(), p, edges_history(g[0].1.values, p, acc))
    }
}

/// `acc` merged with the histories of the invalidations in `s`.
pub open spec fn invalid_history(s: AttributesV, acc: Option<ValueHistory>) -> Option<ValueHistory>
    decreases s.len(),
{
    if s.len() == 0 {
        acc
    } else {
        invalid_history(
            s.drop_first(),
            match s[0].1 {
                Attribute::Invalid(_, h) => and_history(acc, h),
                _ => acc,
            },
        )
    }
}

/// The test for being `addr`.
pub open spec fn is_value(addr: AbstractValue) -> spec_fn(AbstractValue) -> bool {
    |v: AbstractValue| v == addr
}

/// The provenance of `addr`: that of the variables bound to it, of the edges to
/// it and of its invalidations.
pub open spec fn base_history(d: BaseV, addr: AbstractValue) -> Option<ValueHistory> {
    invalid_history(
        attrs_at(d.attrs, addr),
        graph_history(
            d.heap.graph,
            is_value(addr),
            stack_history(d.stack, is_value(addr), None),
        ),
    )
}

/// The test that every value passes.
pub open spec fn any_value() -> spec_fn(AbstractValue) -> bool {
    |v: AbstractValue| true
}

/// `d` with `old` replaced by `new`.
pub open spec fn base_subst(d: BaseV, old: AbstractValue, new: AbstractValue) -> BaseV {
    BaseV {
        stack: stack_subst(d.stack, old, new),
        heap: memory_subst(d.heap, old, new),
        attrs: attrs_subst(d.attrs, old, new),
    }
}

/// `d` with `old` replaced by `new`, and whether that is possible. When it is
/// not, the attributes are left alone.
pub open spec fn base_subst_or_unsat(d: BaseV, old: AbstractValue, new: AbstractValue) -> (
    BaseV,
    bool,
) {
    let heap = memory_subst_or_unsat(d.heap, old, new);
    (
        BaseV {
            stack: stack_subst(d.stack, old, new),
            heap: heap.0,
            attrs: if heap.1 {
                attrs_subst(d.attrs, old, new)
            } else {
                d.attrs
            },
        },
        heap.1,
    )
}

fn merge_into(acc: Option<ValueHistory>, h: &ValueHistory) -> (r: Option<ValueHistory>)
    ensures
        r == and_history(acc, *h),
{
    match acc {
        Some(existing) => Some(existing.merge(h)),
        None => Some(h.clone()),
    }
}

/// Merges the histories of the variables bound to a value that passes.
pub fn merge_stack_history<T: ValueTest>(
    stack: &BaseStack,
    test: &T,
    acc: Option<ValueHistory>,
) -> (r: Option<ValueHistory>)
    ensures
        r == stack_history(stack@, test_fn(*test), acc),
{
    let ghost p = test_fn(*test);
    let mut history = acc;
    let mut i: usize = 0;
    assert(stack@.skip(0) =~= stack@);
    while i < stack.len()
        invariant
            p == test_fn(*test),
            i <= stack@.len(),
            stack_history(stack@.skip(i as int), p, history) == stack_history(stack@, p, acc),
        decreases stack@.len() - i,
    {
        let ghost s = stack@.skip(i as int);
        assert(s[0] == stack@[i as int]);
        assert(s.drop_first() =~= stack@.skip(i + 1));
        let value = stack.value_at(i);
        if test.test(value.addr) {
            history = merge_into(history, &value.history);
        }
        i = i + 1;
    }
    assert(stack@.skip(i as int).len() == 0);
    history
}

/// Merges the histories of the edges to a value that passes.
pub fn merge_edges_history<T: ValueTest>(edges: &Edges, test: &T, acc: Option<ValueHistory>) -> (r:
    Option<ValueHistory>)
    ensures
        r == edges_history(edges@.values, test_fn(*test), acc),
{
    let ghost p = test_fn(*test);
    let ghost all = edges@.values;
    let mut history = acc;
    let mut i: usize = 0;
    assert(all.skip(0) =~= all);
    while i < edges.len()
        invariant
            p == test_fn(*test),
            all == edges@.values,
            i <= all.len(),
            edges_history(all.skip(i as int), p, history) == edges_history(all, p, acc),
        decreases all.len() - i,
    {
        let ghost s = all.skip(i as int);
        assert(s[0] == all[i as int]);
        assert(s.drop_first() =~= all.skip(i + 1));
        let value = edges.value_at(i);
        if test.test(value.addr) {
            history = merge_into(history, &value.history);
        }
        i = i + 1;
    }
    assert(all.skip(i as int).len() == 0);
    history
}

/// Merges the histories of all edges to a value that passes.
pub fn merge_heap_history<T: ValueTest>(
    heap: &BaseMemory,
    test: &T,
    acc: Option<ValueHistory>,
) -> (r: Option<ValueHistory>)
    ensures
        r == graph_history(heap@.graph, test_fn(*test), acc),
{
    let ghost p = test_fn(*test);
    let ghost all = heap@.graph;
    let mut history = acc;
    let mut i: usize = 0;
    assert(all.skip(0) =~= all);
    while i < heap.len()
        invariant
            p == test_fn(*test),
            all == heap@.graph,
            i <= all.len(),
            graph_history(all.skip(i as int), p, history) == graph_history(all, p, acc),
        decreases all.len() - i,
    {
        let ghost s = all.skip(i as int);
        assert(s[0] == all[i as int]);
        assert(s.drop_first() =~= all.skip(i + 1));
        history = merge_edges_history(heap.edges_at_position(i), test, history);
        i = i + 1;
    }
    assert(all.skip(i as int).len() == 0);
    history
}

fn merge_invalid_history(attrs: &Attributes, acc: Option<ValueHistory>) -> (r: Option<ValueHistory>)
    ensures
        r == invalid_history(attrs@, acc),
{
    let mut history = acc;
    let mut i: usize = 0;
    assert(attrs@.skip(0) =~= attrs@);
    while i < attrs.len()
        invariant
            i <= attrs@.len(),
            invalid_history(attrs@.skip(i as int), history) == invalid_history(attrs@, acc),
        decreases attrs@.len() - i,
    {
        let ghost s = attrs@.skip(i as int);
        assert(s[0] == attrs@[i as int]);
        assert(s.drop_first() =~= attrs@.skip(i + 1));
        if let Attribute::Invalid(_, h) = attrs.at(i) {
            history = merge_into(history, h);
        }
        i = i + 1;
    }
    assert(attrs@.skip(i as int).len() == 0);
    history
}

struct IsValue {
    addr: AbstractValue,
}

impl ValueTest for IsValue {
    closed spec fn holds(&self, v: AbstractValue) -> bool {
        v == self.addr
    }

    fn test(&self, v: AbstractValue) -> (b: bool) {
        v == self.addr
    }
}

struct AnyValue {}

impl ValueTest for AnyValue {
    closed spec fn holds(&self, v: AbstractValue) -> bool {
        true
    }

    fn test(&self, v: AbstractValue) -> (b: bool) {
        true
    }
}

/// The base abstract state: stack, heap, and address attributes.
#[derive(Debug, PartialEq, Eq)]
pub struct BaseDomain {
    pub stack: BaseStack,
    pub heap: BaseMemory,
    pub attrs: BaseAddressAttributes,
}

impl View for BaseDomain {
    type V = BaseV;

    open spec fn view(&self) -> BaseV {
        BaseV { stack: self.stack@, heap: self.heap@, attrs: self.attrs@ }
    }
}

impl Dup for BaseDomain {
    fn dup(&self) -> (r: Self) {
        BaseDomain { stack: self.stack.dup(), heap: self.heap.dup(), attrs: self.attrs.dup() }
    }
}

impl Clone for BaseDomain {
    fn clone(&self) -> (r: Self)
        ensures
            r@ == self@,
    {
        self.dup()
    }
}

/// The state without bindings, edges and attributes.
pub open spec fn empty_base(limit: Option<usize>) -> BaseV {
    BaseV { stack: seq![], heap: MemoryV { limit, graph: seq![] }, attrs: seq![] }
}

impl BaseDomain {
    pub fn empty() -> (r: Self)
        ensures
            r@ == empty_base(Some(crate::base_memory::DEFAULT_RECENCY_LIMIT)),
    {
        BaseDomain {
            stack: BaseStack::empty(),
            heap: BaseMemory::empty(),
            attrs: BaseAddressAttributes::empty(),
        }
    }

    /// Best-effort provenance lookup for an address in this raw domain.
    pub fn history_of_value(&self, addr: AbstractValue) -> (r: Option<ValueHistory>)
        ensures
            r == base_history(self@, addr),
    {
        let test = IsValue { addr };
        assert(test_fn(test) =~= is_value(addr));
        let history = merge_stack_history(&self.stack, &test, None);
        let history = merge_heap_history(&self.heap, &test, history);
        match self.attrs.get(&addr) {
            Some(attrs) => merge_invalid_history(attrs, history),
            None => history,
        }
    }

    /// Best-effort provenance lookup for the value carried by an outgoing heap
    /// cell of `addr`.
    pub fn history_of_heap_value(&self, addr: AbstractValue) -> (r: Option<ValueHistory>)
        ensures
            r == edges_history(edges_at(self@.heap, addr).values, any_value(), None),
    {
        match self.heap.get_edges(addr) {
            Some(edges) => {
                let test = AnyValue {  };
                assert(test_fn(test) =~= any_value());
                merge_edges_history(edges, &test, None)
            },
            None => None,
        }
    }

    /// Substitute an abstract value: replace `old_value` with `new_value`
    /// everywhere.
    pub fn subst_var(&mut self, old_value: AbstractValue, new_value: AbstractValue)
        ensures
            final(self)@ == base_subst(old(self)@, old_value, new_value),
    {
        self.stack.subst_var(old_value, new_value);
        self.heap.subst_var(old_value, new_value);
        self.attrs.subst_var(old_value, new_value);
    }

    /// Substitution with a heap aliasing check. See
    /// [`BaseMemory::subst_var_or_unsat`].
    pub fn subst_var_or_unsat(&mut self, old_value: AbstractValue, new_value: AbstractValue) -> (r:
        SatUnsat<()>)
        ensures
            (final(self)@, r is Sat) == base_subst_or_unsat(old(self)@, old_value, new_value),
    {
        self.stack.subst_var(old_value, new_value);
        match self.heap.subst_var_or_unsat(old_value, new_value) {
            SatUnsat::Sat(()) => {
                self.attrs.subst_var(old_value, new_value);
                SatUnsat::Sat(())
            },
            SatUnsat::Unsat => SatUnsat::Unsat,
        }
    }

    pub open spec fn text(self) -> Seq<char> {
        "{ stack=["@ + self.stack.text() + "]; heap=["@ + self.heap.text() + "]; attrs=["@
            + self.attrs.text() + "] }"@
    }

    /// The state as a string.
    pub fn to_string(&self) -> (r: String)
        ensures
            r@ == self.text(),
    {
        let mut out = String::new();
        out.append("{ stack=[");
        self.stack.push_text(&mut out);
        out.append("]; heap=[");
        self.heap.push_text(&mut out);
        out.append("]; attrs=[");
        self.attrs.push_text(&mut out);
        out.append("] }");
        assert(out@ =~= self.text());
        out
    }
}

} // verus!
