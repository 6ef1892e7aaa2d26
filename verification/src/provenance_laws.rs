//! Where a value comes from: the provenance of a value has the histories of
//! everything that leads to it, and no others.

use crate::abstract_value::AbstractValue;
use crate::attribute::{has_kind, of_kinds, Attribute, AttributeKind, AttributesV};
use crate::base_attrs::{attrs_at, restricted, AttrMapV};
use crate::base_domain::{
    and_history, base_history, edges_history, graph_history, invalid_history, is_value,
    stack_history, BaseV,
};
use crate::base_stack::StackV;
use crate::heap_laws::{lemma_lookup_filter, memory_wf};
use crate::heap_model::{memory_retain, EdgeEntry, EdgesV, MemoryV};
use crate::history_laws::law_merged;
use crate::key::KeyV;
use crate::ordered::{
    lemma_filter_members, lemma_lookup_at, lemma_lookup_has_key, lookup, sorted, OrdKey,
};
use crate::state_laws::lemma_has_kind;
use crate::value_history::{has_path, HistoryPath, ValueHistory};
use vstd::prelude::*;

verus! {

/// The history is known and has this path.
pub open spec fn knows(h: Option<ValueHistory>, p: HistoryPath) -> bool {
    h matches Some(x) && has_path(x.paths@, p)
}

proof fn lemma_and_history(acc: Option<ValueHistory>, h: ValueHistory, p: HistoryPath)
    ensures
        knows(and_history(acc, h), p) <==> knows(acc, p) || has_path(h.paths@, p),
        and_history(acc, h) is Some,
{
    if let Some(x) = acc {
        law_merged(x, h, p);
    }
}

/// The histories of the variables bound to a value that passes are gathered, and no
/// others.
pub proof fn law_stack_history(
    s: StackV,
    t: spec_fn(AbstractValue) -> bool,
    acc: Option<ValueHistory>,
    p: HistoryPath,
)
    ensures
        knows(stack_history(s, t, acc), p) <==> knows(acc, p) || exists|i: int|
            0 <= i < s.len() && t((#[trigger] s[i]).1.value.addr) && has_path(
                s[i].1.value.history.paths@,
                p,
            ),
    decreases s.len(),
{
    if s.len() > 0 {
        let v = s[0].1.value;
        let rest = s.drop_first();
        let next = if t(v.addr) {
            and_history(acc, v.history)
        } else {
            acc
        };
        lemma_and_history(acc, v.history, p);
        law_stack_history(rest, t, next, p);
        if exists|i: int|
            0 <= i < rest.len() && t((#[trigger] rest[i]).1.value.addr) && has_path(
                rest[i].1.value.history.paths@,
                p,
            ) {
            let i = choose|i: int|
                0 <= i < rest.len() && t((#[trigger] rest[i]).1.value.addr) && has_path(
                    rest[i].1.value.history.paths@,
                    p,
                );
            assert(s[i + 1] == rest[i]);
        }
        if exists|i: int|
            0 <= i < s.len() && t((#[trigger] s[i]).1.value.addr) && has_path(
                s[i].1.value.history.paths@,
                p,
            ) {
            let i = choose|i: int|
                0 <= i < s.len() && t((#[trigger] s[i]).1.value.addr) && has_path(
                    s[i].1.value.history.paths@,
                    p,
                );
            if i > 0 {
                assert(rest[i - 1] == s[i]);
            }
        }
    }
}

/// One of the edges leads to a value that passes and has this path in its history.
pub open spec fn edges_know(
    s: Seq<(KeyV, EdgeEntry)>,
    t: spec_fn(AbstractValue) -> bool,
    p: HistoryPath,
) -> bool {
    exists|i: int|
        0 <= i < s.len() && t((#[trigger] s[i]).1.value.addr) && has_path(
            s[i].1.value.history.paths@,
            p,
        )
}

/// The histories of the edges to a value that passes are gathered, and no others.
pub proof fn law_edges_history(
    s: Seq<(KeyV, EdgeEntry)>,
    t: spec_fn(AbstractValue) -> bool,
    acc: Option<ValueHistory>,
    p: HistoryPath,
)
    ensures
        knows(edges_history(s, t, acc), p) <==> knows(acc, p) || edges_know(s, t, p),
    decreases s.len(),
{
    if s.len() > 0 {
        let v = s[0].1.value;
        let rest = s.drop_first();
        let next = if t(v.addr) {
            and_history(acc, v.history)
        } else {
            acc
        };
        lemma_and_history(acc, v.history, p);
        law_edges_history(rest, t, next, p);
        if edges_know(rest, t, p) {
            let i = choose|i: int|
                0 <= i < rest.len() && t((#[trigger] rest[i]).1.value.addr) && has_path(
                    rest[i].1.value.history.paths@,
                    p,
                );
            assert(s[i + 1] == rest[i]);
        }
        if edges_know(s, t, p) {
            let i = choose|i: int|
                0 <= i < s.len() && t((#[trigger] s[i]).1.value.addr) && has_path(
                    s[i].1.value.history.paths@,
                    p,
                );
            if i > 0 {
                assert(rest[i - 1] == s[i]);
            }
        }
    }
}

/// The histories of all edges of a heap to a value that passes are gathered, and no
/// others.
pub proof fn law_graph_history(
    g: Seq<(AbstractValue, EdgesV)>,
    t: spec_fn(AbstractValue) -> bool,
    acc: Option<ValueHistory>,
    p: HistoryPath,
)
    ensures
        knows(graph_history(g, t, acc), p) <==> knows(acc, p) || exists|i: int|
            0 <= i < g.len() && edges_know((#[trigger] g[i]).1.values, t, p),
    decreases g.len(),
{
    if g.len() > 0 {
        let rest = g.drop_first();
        law_edges_history(g[0].1.values, t, acc, p);
        law_graph_history(rest, t, edges_history(g[0].1.values, t, acc), p);
        if exists|i: int| 0 <= i < rest.len() && edges_know((#[trigger] rest[i]).1.values, t, p) {
            let i = choose|i: int|
                0 <= i < rest.len() && edges_know((#[trigger] rest[i]).1.values, t, p);
            assert(g[i + 1] == rest[i]);
        }
        if exists|i: int| 0 <= i < g.len() && edges_know((#[trigger] g[i]).1.values, t, p) {
            let i = choose|i: int| 0 <= i < g.len() && edges_know((#[trigger] g[i]).1.values, t, p);
            if i > 0 {
                assert(rest[i - 1] == g[i]);
            }
        }
    }
}

/// One of the attributes is an invalidation with this path in its history.
pub open spec fn invalidation_knows(s: AttributesV, p: HistoryPath) -> bool {
    exists|i: int|
        0 <= i < s.len() && ((#[trigger] s[i]).1 matches Attribute::Invalid(_, h) && has_path(
            h.paths@,
            p,
        ))
}

/// The histories of the invalidations are gathered, and no others.
pub proof fn law_invalid_history(s: AttributesV, acc: Option<ValueHistory>, p: HistoryPath)
    ensures
        knows(invalid_history(s, acc), p) <==> knows(acc, p) || invalidation_knows(s, p),
    decreases s.len(),
{
    if s.len() > 0 {
        let rest = s.drop_first();
        let next = match s[0].1 {
            Attribute::Invalid(_, h) => and_history(acc, h),
            _ => acc,
        };
        if let Attribute::Invalid(_, h) = s[0].1 {
            lemma_and_history(acc, h, p);
        }
        law_invalid_history(rest, next, p);
        if invalidation_knows(rest, p) {
            let i = choose|i: int|
                0 <= i < rest.len() && ((#[trigger] rest[i]).1 matches Attribute::Invalid(_, h)
                    && has_path(h.paths@, p));
            assert(s[i + 1] == rest[i]);
        }
        if invalidation_knows(s, p) {
            let i = choose|i: int|
                0 <= i < s.len() && ((#[trigger] s[i]).1 matches Attribute::Invalid(_, h)
                    && has_path(h.paths@, p));
            if i > 0 {
                assert(rest[i - 1] == s[i]);
            }
        }
    }
}

/// The provenance of a value has the history of every variable bound to it, of every
/// edge to it and of every one of its invalidations, and no other path.
pub proof fn law_provenance(d: BaseV, addr: AbstractValue, p: HistoryPath)
    ensures
        knows(base_history(d, addr), p) <==> {
            ||| exists|i: int|
                0 <= i < d.stack.len() && (#[trigger] d.stack[i]).1.value.addr == addr && has_path(
                    d.stack[i].1.value.history.paths@,
                    p,
                )
            ||| exists|i: int|
                0 <= i < d.heap.graph.len() && edges_know(
                    (#[trigger] d.heap.graph[i]).1.values,
                    is_value(addr),
                    p,
                )
            ||| invalidation_knows(attrs_at(d.attrs, addr), p)
        },
{
    let t = is_value(addr);
    law_stack_history(d.stack, t, None, p);
    let a = stack_history(d.stack, t, None);
    law_graph_history(d.heap.graph, t, a, p);
    law_invalid_history(attrs_at(d.attrs, addr), graph_history(d.heap.graph, t, a), p);
    assert forall|i: int| 0 <= i < d.stack.len() implies t((#[trigger] d.stack[i]).1.value.addr)
        == (d.stack[i].1.value.addr == addr) by {}
}

/// A heap cut down to some addresses has their edges, unaltered, and no others.
pub proof fn law_heap_retained(m: MemoryV, keep: Seq<AbstractValue>, a: AbstractValue)
    requires
        memory_wf(m),
    ensures
        lookup(memory_retain(m, keep).graph, a) matches Some(e) ==> keep.contains(a) && lookup(
            m.graph,
            a,
        ) == Some(e) && e.values.len() > 0,
        lookup(m.graph, a) matches Some(e) ==> keep.contains(a) && e.values.len() > 0 ==> lookup(
            memory_retain(m, keep).graph,
            a,
        ) == Some(e),
{
    let p = |e: (AbstractValue, EdgesV)| keep.contains(e.0) && e.1.values.len() > 0;
    assert(memory_retain(m, keep).graph == m.graph.filter(p));
    lemma_lookup_filter::<AbstractValue, EdgesV>(m.graph, p, a);
}

proof fn lemma_of_kinds(s: AttributesV, kinds: Seq<AttributeKind>, k: AttributeKind)
    ensures
        has_kind(of_kinds(s, kinds), k) == (kinds.contains(k) && has_kind(s, k)),
{
    let p = |e: (KeyV, Attribute)| kinds.contains(e.1.kind());
    let f = s.filter(p);
    assert(of_kinds(s, kinds) == f);
    lemma_has_kind(s, k);
    lemma_has_kind(f, k);
    if has_kind(f, k) {
        let i = choose|i: int| 0 <= i < f.len() && (#[trigger] f[i]).1.kind() == k;
        lemma_filter_members(s, p, i);
        let j = choose|j: int| 0 <= j < s.len() && #[trigger] s[j] == f[i];
        s.lemma_filter_pred(p, i);
        assert(s[j].1.kind() == k);
    }
    if kinds.contains(k) && has_kind(s, k) {
        let i = choose|i: int| 0 <= i < s.len() && (#[trigger] s[i]).1.kind() == k;
        assert(p(s[i]));
        assert(s.contains(s[i]));
        assert(s.filter(p).contains(s[i]));
        let j = choose|j: int| 0 <= j < f.len() && f[j] == s[i];
        assert(f[j].1.kind() == k);
    }
}

/// Attributes restricted to some kinds have those kinds where they had them, and no
/// others, and no address is left without attributes.
pub proof fn law_restricted(
    m: AttrMapV,
    kinds: Seq<AttributeKind>,
    a: AbstractValue,
    k: AttributeKind,
)
    requires
        sorted::<AbstractValue, AttributesV>(m),
    ensures
        has_kind(attrs_at(restricted(m, kinds), a), k) == (kinds.contains(k) && has_kind(
            attrs_at(m, a),
            k,
        )),
        lookup(restricted(m, kinds), a) matches Some(s) ==> s.len() > 0,
{
    lemma_restricted(m, kinds, a);
    lemma_of_kinds(attrs_at(m, a), kinds, k);
    lemma_has_kind(Seq::<(KeyV, Attribute)>::empty(), k);
    lemma_has_kind(of_kinds(attrs_at(m, a), kinds), k);
    lemma_lookup_has_key(m, a);
    if lookup(m, a) is None {
        assert(attrs_at(m, a).len() == 0);
    }
}

proof fn lemma_restricted(m: AttrMapV, kinds: Seq<AttributeKind>, a: AbstractValue)
    requires
        sorted::<AbstractValue, AttributesV>(m),
    ensures
        sorted::<AbstractValue, AttributesV>(restricted(m, kinds)),
        forall|i: int|
            0 <= i < restricted(m, kinds).len() ==> exists|j: int|
                0 <= j < m.len() && (#[trigger] m[j]).0 == (#[trigger] restricted(m, kinds)[i]).0,
        lookup(restricted(m, kinds), a) == match lookup(m, a) {
            Some(s) => if of_kinds(s, kinds).len() == 0 {
                None
            } else {
                Some(of_kinds(s, kinds))
            },
            None => None,
        },
    decreases m.len(),
{
    if m.len() > 0 {
        let t = m.drop_last();
        let last = m.len() - 1;
        let rest = restricted(t, kinds);
        let all = restricted(m, kinds);
        let s = of_kinds(m.last().1, kinds);
        lemma_restricted(t, kinds, a);
        assert forall|i: int| 0 <= i < all.len() implies exists|j: int|
            0 <= j < m.len() && (#[trigger] m[j]).0 == (#[trigger] all[i]).0 by {
            if i < rest.len() {
                let j = choose|j: int| 0 <= j < t.len() && (#[trigger] t[j]).0 == rest[i].0;
                assert(m[j].0 == all[i].0);
            } else {
                assert(m[last].0 == all[i].0);
            }
        }
        assert forall|i: int, j: int| 0 <= i < j < all.len() implies <AbstractValue as OrdKey>::lt(
            (#[trigger] all[i]).0,
            (#[trigger] all[j]).0,
        ) by {
            if j == rest.len() {
                let q = choose|q: int| 0 <= q < t.len() && (#[trigger] t[q]).0 == rest[i].0;
                assert(<AbstractValue as OrdKey>::lt(m[q].0, m[last].0));
            } else {
                assert(<AbstractValue as OrdKey>::lt(rest[i].0, rest[j].0));
            }
        }
        lemma_lookup_has_key(m, a);
        lemma_lookup_has_key(all, a);
        lemma_lookup_has_key(rest, a);
        lemma_lookup_has_key(t, a);
        if a == m.last().0 {
            lemma_lookup_at::<AbstractValue, AttributesV>(m, last);
            if lookup(t, a) is Some {
                let q = choose|q: int| 0 <= q < t.len() && (#[trigger] t[q]) == (a, lookup(t, a)->0);
                assert(<AbstractValue as OrdKey>::lt(m[q].0, m[last].0));
            }
            if s.len() > 0 {
                lemma_lookup_at::<AbstractValue, AttributesV>(all, rest.len() as int);
            }
        } else {
            if let Some(x) = lookup(t, a) {
                let q = choose|q: int| 0 <= q < t.len() && (#[trigger] t[q]) == (a, x);
                lemma_lookup_at::<AbstractValue, AttributesV>(m, q);
                assert(m[q] == t[q]);
            } else if let Some(x) = lookup(m, a) {
                let q = choose|q: int| 0 <= q < m.len() && (#[trigger] m[q]) == (a, x);
                assert(t[q] == m[q]);
            }
            if let Some(x) = lookup(rest, a) {
                let q = choose|q: int| 0 <= q < rest.len() && (#[trigger] rest[q]) == (a, x);
                lemma_lookup_at::<AbstractValue, AttributesV>(all, q);
                assert(all[q] == rest[q]);
            } else if let Some(x) = lookup(all, a) {
                let q = choose|q: int| 0 <= q < all.len() && (#[trigger] all[q]) == (a, x);
                assert(q < rest.len());
                assert(rest[q] == all[q]);
            }
        }
    }
}

} // verus!
