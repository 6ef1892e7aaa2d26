//! Replacing a value keeps the edges of the heap.

use crate::abstract_value::AbstractValue;
use crate::access::{renamed_access, Access};
use crate::heap_laws::{
    edges_wf, forgotten, is_tracked, law_add_wf, law_find_after_add, law_key_gives_order, memory_wf,
    within_limit,
};
use crate::heap_model::{
    add_all, add_edge, add_limited, batch_size, bound, bound_here, collected, edges_at, edges_of,
    find_edge, listed, memory_find, memory_mentions, memory_subst, memory_subst_or_unsat, no_edges,
    rebuilt, recency, renamed_binding, renamed_bindings, renamed_value, subst_edges, subst_fn,
    subst_graph, without, without_address, Binding, EdgeEntry, EdgesV, MemoryV, ValueFn,
};
use crate::key::{Key, KeyV, Keyed, PartV};
use crate::ordered::{
    lemma_del_sorted, lemma_lookup_at, lemma_lookup_del, lemma_lookup_has_key, lemma_lookup_put,
    lemma_put_members, lemma_put_sorted, lookup, put, sorted, OrdKey,
};
use crate::value_history::ValueWithHistory;
use vstd::prelude::*;

verus! {

/// The newest batch has room for `n` more bindings.
pub open spec fn has_room(e: EdgesV, n: int) -> bool {
    e.limit matches Some(limit) ==> e.new_keys.len() + n <= batch_size(limit)
}

proof fn lemma_without_len(keys: Seq<Access>, a: Access)
    ensures
        without(keys, a).len() <= keys.len(),
    decreases keys.len(),
{
    if keys.len() > 0 {
        lemma_without_len(keys.drop_first(), a);
    }
}

/// Adding an edge while there is room loses none.
proof fn lemma_add_room(e: EdgesV, a: Access, v: ValueWithHistory, b: Access)
    requires
        edges_wf(e),
        has_room(e, 1),
    ensures
        edges_wf(add_edge(e, a, v)),
        add_edge(e, a, v).limit == e.limit,
        add_edge(e, a, v).new_keys.len() <= e.new_keys.len() + 1,
        find_edge(add_edge(e, a, v), b) == if b.order() == a.order() {
            Some(v)
        } else {
            find_edge(e, b)
        },
{
    lemma_without_len(e.new_keys, a);
    law_add_wf(e, a, v);
    law_find_after_add(e, a, v, b);
}

/// The edges made of few bindings have every one of them, the first of those along
/// the same access.
proof fn lemma_rebuilt_room(s: Seq<Binding>, size: usize, i: int)
    requires
        s.len() <= batch_size(size),
        0 <= i < s.len(),
    ensures
        ({
            let e = rebuilt(s, Some(size), size);
            &&& edges_wf(e) && e.limit == Some(size) && e.new_keys.len() <= s.len()
            &&& find_edge(e, s[i].0) is Some
        }),
    decreases s.len(),
{
    let t = s.drop_first();
    let rest = rebuilt(t, Some(size), size);
    if t.len() > 0 {
        lemma_rebuilt_room(t, size, if i == 0 { 0 } else { i - 1 });
    }
    lemma_add_room(rest, s[0].0, s[0].1, s[i].0);
    if i > 0 {
        assert(t[i - 1] == s[i]);
    }
}

proof fn lemma_collected_has(s: Seq<Binding>, i: int)
    ensures
        sorted::<Key, EdgeEntry>(collected(s)),
        forall|j: int|
            0 <= j < collected(s).len() ==> (#[trigger] collected(s)[j]).1.access.order()
                == collected(s)[j].0,
        0 <= i < s.len() ==> lookup(collected(s), s[i].0.order()) is Some,
    decreases s.len(),
{
    if s.len() > 0 {
        let t = s.drop_last();
        let b = s.last();
        let entry = EdgeEntry { access: b.0, value: b.1 };
        lemma_collected_has(t, i);
        lemma_put_sorted::<Key, EdgeEntry>(collected(t), b.0.order(), entry);
        assert forall|j: int| 0 <= j < collected(s).len() implies (
        #[trigger] collected(s)[j]).1.access.order() == collected(s)[j].0 by {
            lemma_put_members::<Key, EdgeEntry>(collected(t), b.0.order(), entry, j);
            if collected(s)[j] != (b.0.order(), entry) {
                let k = choose|k: int|
                    0 <= k < collected(t).len() && #[trigger] collected(t)[k] == collected(s)[j];
                assert(collected(t)[k].1.access.order() == collected(t)[k].0);
            }
        }
        if 0 <= i < s.len() {
            lemma_lookup_put::<Key, EdgeEntry>(collected(t), b.0.order(), entry, s[i].0.order());
            if i < t.len() {
                assert(t[i] == s[i]);
            }
        }
    }
}

/// Edges made of bindings that fit into a batch have every one of them.
pub proof fn law_edges_of_keep_all(s: Seq<Binding>, limit: Option<usize>, i: int)
    requires
        limit matches Some(size) ==> s.len() <= batch_size(size),
        0 <= i < s.len(),
    ensures
        edges_wf(edges_of(s, limit)),
        edges_of(s, limit).limit == limit,
        edges_of(s, limit).new_keys.len() <= s.len(),
        find_edge(edges_of(s, limit), s[i].0) is Some,
{
    match limit {
        Some(size) => lemma_rebuilt_room(s, size, i),
        None => lemma_collected_has(s, i),
    }
}

proof fn lemma_rebuilt_from(s: Seq<Binding>, size: usize, a: Access)
    ensures
        edges_wf(rebuilt(s, Some(size), size)),
        rebuilt(s, Some(size), size).limit == Some(size),
        find_edge(rebuilt(s, Some(size), size), a) matches Some(v) ==> exists|i: int|
            0 <= i < s.len() && (#[trigger] s[i]).0.order() == a.order() && s[i].1 == v,
    decreases s.len(),
{
    if s.len() > 0 {
        let t = s.drop_first();
        let rest = rebuilt(t, Some(size), size);
        lemma_rebuilt_from(t, size, a);
        law_add_wf(rest, s[0].0, s[0].1);
        law_find_after_add(rest, s[0].0, s[0].1, a);
        assert(add_edge(rest, s[0].0, s[0].1) == add_limited(rest, s[0].0, s[0].1, size));
        if let Some(v) = find_edge(rebuilt(s, Some(size), size), a) {
            if a.order() != s[0].0.order() {
                let i = choose|i: int|
                    0 <= i < t.len() && (#[trigger] t[i]).0.order() == a.order() && t[i].1 == v;
                assert(s[i + 1] == t[i]);
            }
        }
    }
}

proof fn lemma_collected_from(s: Seq<Binding>, a: Access)
    ensures
        lookup(collected(s), a.order()) matches Some(entry) ==> exists|i: int|
            0 <= i < s.len() && (#[trigger] s[i]).0.order() == a.order() && s[i].1 == entry.value,
    decreases s.len(),
{
    if s.len() > 0 {
        let t = s.drop_last();
        let b = s.last();
        lemma_collected_has(t, 0);
        lemma_collected_from(t, a);
        lemma_lookup_put::<Key, EdgeEntry>(
            collected(t),
            b.0.order(),
            EdgeEntry { access: b.0, value: b.1 },
            a.order(),
        );
        if let Some(entry) = lookup(collected(s), a.order()) {
            if a.order() != b.0.order() {
                let i = choose|i: int|
                    0 <= i < t.len() && (#[trigger] t[i]).0.order() == a.order() && t[i].1
                        == entry.value;
                assert(s[i] == t[i]);
            } else {
                assert(s[s.len() - 1] == b);
            }
        }
    }
}

/// Edges made of bindings have no others.
pub proof fn law_edges_of_add_none(s: Seq<Binding>, limit: Option<usize>, a: Access)
    ensures
        edges_wf(edges_of(s, limit)),
        edges_of(s, limit).limit == limit,
        find_edge(edges_of(s, limit), a) matches Some(v) ==> exists|i: int|
            0 <= i < s.len() && (#[trigger] s[i]).0.order() == a.order() && s[i].1 == v,
{
    match limit {
        Some(size) => lemma_rebuilt_from(s, size, a),
        None => {
            lemma_collected_has(s, 0);
            lemma_collected_from(s, a);
        },
    }
}

proof fn lemma_bound_has(
    values: Seq<(KeyV, EdgeEntry)>,
    keys: Seq<Access>,
    skip: Seq<Access>,
    a: Access,
)
    requires
        lookup(values, a.order()) is Some,
        listed(keys, a),
        !listed(skip, a),
    ensures
        exists|i: int|
            0 <= i < bound(values, keys, skip).len() && (#[trigger] bound(
                values,
                keys,
                skip,
            )[i]).0.order() == a.order(),
    decreases keys.len(),
{
    let s = bound(values, keys, skip);
    let head = bound_here(values, keys[0], skip);
    let t = keys.drop_first();
    let i = choose|i: int| 0 <= i < keys.len() && (#[trigger] keys[i]).key() == a.key();
    law_key_gives_order(keys[i], a);
    if i == 0 {
        if listed(skip, keys[0]) {
            let j = choose|j: int| 0 <= j < skip.len() && (#[trigger] skip[j]).key() == keys[0].key();
            assert(skip[j].key() == a.key());
        }
        assert(head.len() == 1);
        assert(s[0] == head[0]);
    } else {
        assert(t[i - 1] == keys[i]);
        lemma_bound_has(values, t, skip, a);
        let r = bound(values, t, skip);
        let j = choose|j: int| 0 <= j < r.len() && (#[trigger] r[j]).0.order() == a.order();
        assert(s[head.len() + j] == r[j]);
    }
}

proof fn lemma_bound_from(
    values: Seq<(KeyV, EdgeEntry)>,
    keys: Seq<Access>,
    skip: Seq<Access>,
    i: int,
)
    requires
        0 <= i < bound(values, keys, skip).len(),
    ensures
        lookup(values, bound(values, keys, skip)[i].0.order()) matches Some(entry) && entry.value
            == bound(values, keys, skip)[i].1,
    decreases keys.len(),
{
    let head = bound_here(values, keys[0], skip);
    let t = keys.drop_first();
    if i >= head.len() {
        lemma_bound_from(values, t, skip, i - head.len());
    }
}

/// What is remembered of the edges are edges.
pub proof fn law_recency_is_found(e: EdgesV, i: int)
    requires
        edges_wf(e),
        0 <= i < recency(e).len(),
    ensures
        find_edge(e, recency(e)[i].0) == Some(recency(e)[i].1),
{
    if e.new_keys.len() == 0 && e.old_keys.len() == 0 {
        lemma_lookup_at::<Key, EdgeEntry>(e.values, i);
    } else {
        let a = bound(e.values, e.new_keys, seq![]);
        if i < a.len() {
            lemma_bound_from(e.values, e.new_keys, seq![], i);
        } else {
            lemma_bound_from(e.values, e.old_keys, e.new_keys, i - a.len());
        }
    }
}

/// Every edge that a batch lists is remembered, and every one where there are no
/// batches.
pub proof fn law_recency_has_all(e: EdgesV, k: int)
    requires
        edges_wf(e),
        0 <= k < e.values.len(),
        is_tracked(e, e.values[k].1.access) || (e.new_keys.len() == 0 && e.old_keys.len() == 0),
    ensures
        exists|i: int|
            0 <= i < recency(e).len() && (#[trigger] recency(e)[i]).0.order() == e.values[k].0,
{
    let a = e.values[k].1.access;
    let r = recency(e);
    lemma_lookup_at::<Key, EdgeEntry>(e.values, k);
    if e.new_keys.len() == 0 && e.old_keys.len() == 0 {
        assert(r[k].0.order() == e.values[k].0);
    } else {
        let none: Seq<Access> = seq![];
        let s = bound(e.values, e.new_keys, none);
        let t = bound(e.values, e.old_keys, e.new_keys);
        if listed(e.new_keys, a) {
            lemma_bound_has(e.values, e.new_keys, none, a);
            let i = choose|i: int| 0 <= i < s.len() && (#[trigger] s[i]).0.order() == a.order();
            assert(r[i] == s[i]);
        } else {
            lemma_bound_has(e.values, e.old_keys, e.new_keys, a);
            let i = choose|i: int| 0 <= i < t.len() && (#[trigger] t[i]).0.order() == a.order();
            assert(r[s.len() + i] == t[i]);
        }
    }
}

pub proof fn lemma_renamed_order(m: ValueFn, a: Access, b: Access)
    requires
        a.order() == b.order(),
    ensures
        renamed_access(m, a).order() == renamed_access(m, b).order(),
{
    let (x, y) = (a.order(), b.order());
    assert(x[0] == y[0]);
    match (a, b) {
        (Access::FieldAccess(f), Access::FieldAccess(g)) => {
            assert(x[1] == PartV::Text(f.field_name@) && y[1] == PartV::Text(g.field_name@));
        },
        (Access::ArrayAccess(_, i), Access::ArrayAccess(_, j)) => {
            assert(x[1] == PartV::Number(i.0 as int) && y[1] == PartV::Number(j.0 as int));
        },
        _ => {
            assert(x[0] == PartV::Number(0) || x[0] == PartV::Number(1) || x[0] == PartV::Number(2));
        },
    }
}

/// Every edge of `e` that is remembered is there after a value was replaced, along the
/// image of its access.
pub proof fn law_subst_edges_keep_all(
    e: EdgesV,
    old_value: AbstractValue,
    new_value: AbstractValue,
    k: int,
)
    requires
        edges_wf(e),
        0 <= k < e.values.len(),
        is_tracked(e, e.values[k].1.access) || (e.new_keys.len() == 0 && e.old_keys.len() == 0),
        e.limit matches Some(size) ==> recency(e).len() <= batch_size(size),
    ensures
        find_edge(
            subst_edges(e, old_value, new_value),
            renamed_access(subst_fn(old_value, new_value), e.values[k].1.access),
        ) is Some,
{
    let f = subst_fn(old_value, new_value);
    let s = renamed_bindings(f, recency(e));
    law_recency_has_all(e, k);
    let i = choose|i: int|
        0 <= i < recency(e).len() && (#[trigger] recency(e)[i]).0.order() == e.values[k].0;
    law_edges_of_keep_all(s, e.limit, i);
    assert(s[i] == renamed_binding(f, recency(e)[i]));
    lemma_renamed_order(f, recency(e)[i].0, e.values[k].1.access);
}

/// Every edge after a value was replaced is the image of one before.
pub proof fn law_subst_edges_add_none(
    e: EdgesV,
    old_value: AbstractValue,
    new_value: AbstractValue,
    a: Access,
)
    requires
        edges_wf(e),
    ensures
        edges_wf(subst_edges(e, old_value, new_value)),
        find_edge(subst_edges(e, old_value, new_value), a) matches Some(v) ==> exists|b: Access|
            renamed_access(subst_fn(old_value, new_value), b).order() == a.order() && (
            #[trigger] find_edge(e, b) matches Some(w) && v == renamed_value(
                subst_fn(old_value, new_value),
                w,
            )),
{
    let f = subst_fn(old_value, new_value);
    let s = renamed_bindings(f, recency(e));
    law_edges_of_add_none(s, e.limit, a);
    if let Some(v) = find_edge(subst_edges(e, old_value, new_value), a) {
        let i = choose|i: int|
            0 <= i < s.len() && (#[trigger] s[i]).0.order() == a.order() && s[i].1 == v;
        assert(s[i] == renamed_binding(f, recency(e)[i]));
        law_recency_is_found(e, i);
        assert(find_edge(e, recency(e)[i].0) == Some(recency(e)[i].1));
    }
}

/// Adding edges while there is room keeps those that are there and adds the others.
proof fn lemma_add_all_room(e: EdgesV, s: Seq<(KeyV, EdgeEntry)>, a: Access)
    requires
        edges_wf(e),
        has_room(e, s.len() as int),
    ensures
        edges_wf(add_all(e, s)),
        add_all(e, s).limit == e.limit,
        add_all(e, s).new_keys.len() <= e.new_keys.len() + s.len(),
        find_edge(e, a) is Some ==> find_edge(add_all(e, s), a) is Some,
        (exists|i: int| 0 <= i < s.len() && (#[trigger] s[i]).1.access.order() == a.order())
            ==> find_edge(add_all(e, s), a) is Some,
    decreases s.len(),
{
    if s.len() > 0 {
        let t = s.drop_last();
        lemma_add_all_room(e, t, a);
        lemma_add_room(add_all(e, t), s.last().1.access, s.last().1.value, a);
        if exists|i: int| 0 <= i < s.len() && (#[trigger] s[i]).1.access.order() == a.order() {
            let i = choose|i: int|
                0 <= i < s.len() && (#[trigger] s[i]).1.access.order() == a.order();
            if i < t.len() {
                assert(t[i] == s[i]);
            }
        }
    }
}

proof fn lemma_add_all_from(e: EdgesV, s: Seq<(KeyV, EdgeEntry)>, a: Access)
    requires
        edges_wf(e),
    ensures
        edges_wf(add_all(e, s)),
        find_edge(add_all(e, s), a) matches Some(v) ==> find_edge(e, a) == Some(v) || exists|i: int|
            0 <= i < s.len() && (#[trigger] s[i]).1.access.order() == a.order() && s[i].1.value
                == v,
    decreases s.len(),
{
    if s.len() > 0 {
        let t = s.drop_last();
        let last = s.len() - 1;
        lemma_add_all_from(e, t, a);
        law_add_wf(add_all(e, t), s.last().1.access, s.last().1.value);
        law_find_after_add(add_all(e, t), s.last().1.access, s.last().1.value, a);
        if let Some(v) = find_edge(add_all(e, s), a) {
            if a.order() == s.last().1.access.order() {
                assert(s[last].1.value == v);
            } else if find_edge(e, a) != Some(v) {
                let i = choose|i: int|
                    0 <= i < t.len() && (#[trigger] t[i]).1.access.order() == a.order()
                        && t[i].1.value == v;
                assert(s[i] == t[i]);
            }
        }
    }
}

proof fn lemma_subst_graph(
    m: MemoryV,
    old_value: AbstractValue,
    new_value: AbstractValue,
    a: AbstractValue,
)
    requires
        memory_wf(m),
    ensures
        sorted::<AbstractValue, EdgesV>(subst_graph(m.graph, old_value, new_value)),
        lookup(subst_graph(m.graph, old_value, new_value), a) == match lookup(m.graph, a) {
            Some(e) => Some(subst_edges(e, old_value, new_value)),
            None => None,
        },
        lookup(m.graph, a) matches Some(e) ==> edges_wf(e),
{
    let g = subst_graph(m.graph, old_value, new_value);
    assert forall|i: int, j: int| 0 <= i < j < g.len() implies <AbstractValue as OrdKey>::lt(
        (#[trigger] g[i]).0,
        (#[trigger] g[j]).0,
    ) by {
        assert(<AbstractValue as OrdKey>::lt(m.graph[i].0, m.graph[j].0));
    }
    lemma_lookup_has_key(m.graph, a);
    lemma_lookup_has_key(g, a);
    if let Some(e) = lookup(m.graph, a) {
        let i = choose|i: int| 0 <= i < m.graph.len() && (#[trigger] m.graph[i]) == (a, e);
        assert(edges_wf(m.graph[i].1));
        assert(g[i] == (a, subst_edges(e, old_value, new_value)));
        lemma_lookup_at::<AbstractValue, EdgesV>(g, i);
    } else if let Some(e) = lookup(g, a) {
        let i = choose|i: int| 0 <= i < g.len() && (#[trigger] g[i]) == (a, e);
        assert(m.graph[i].0 == a);
    }
}

/// The edges at each address after a value was replaced.
proof fn lemma_subst_at(
    m: MemoryV,
    old_value: AbstractValue,
    new_value: AbstractValue,
    a: AbstractValue,
)
    requires
        memory_wf(m),
        old_value != new_value,
        memory_mentions(m, old_value),
    ensures
        a != old_value && a != new_value ==> lookup(
            memory_subst(m, old_value, new_value).graph,
            a,
        ) == match lookup(m.graph, a) {
            Some(e) => Some(subst_edges(e, old_value, new_value)),
            None => None,
        },
        lookup(memory_subst(m, old_value, new_value).graph, new_value) == match lookup(
            m.graph,
            old_value,
        ) {
            Some(e) => Some(
                add_all(
                    match lookup(m.graph, new_value) {
                        Some(n) => subst_edges(n, old_value, new_value),
                        None => no_edges(m.limit),
                    },
                    subst_edges(e, old_value, new_value).values,
                ),
            ),
            None => match lookup(m.graph, new_value) {
                Some(n) => Some(subst_edges(n, old_value, new_value)),
                None => None,
            },
        },
{
    let m1 = MemoryV { graph: subst_graph(m.graph, old_value, new_value), ..m };
    lemma_subst_graph(m, old_value, new_value, a);
    lemma_subst_graph(m, old_value, new_value, old_value);
    lemma_subst_graph(m, old_value, new_value, new_value);
    if let Some(e) = lookup(m1.graph, old_value) {
        let m2 = without_address(m1, old_value);
        lemma_del_sorted::<AbstractValue, EdgesV>(m1.graph, old_value);
        lemma_lookup_del::<AbstractValue, EdgesV>(m1.graph, old_value, a);
        lemma_lookup_del::<AbstractValue, EdgesV>(m1.graph, old_value, new_value);
        let x = add_all(edges_at(m2, new_value), e.values);
        lemma_lookup_put::<AbstractValue, EdgesV>(m2.graph, new_value, x, a);
        lemma_lookup_put::<AbstractValue, EdgesV>(m2.graph, new_value, x, new_value);
    }
}

/// All edges are remembered, and few enough to stay together with `n` others.
pub open spec fn roomy(m: MemoryV, e: EdgesV, n: int) -> bool {
    &&& e.limit == m.limit
    &&& within_limit(e)
    &&& e.limit is None ==> e.new_keys.len() == 0 && e.old_keys.len() == 0
    &&& e.limit matches Some(size) ==> recency(e).len() + n <= batch_size(size)
}

/// Where a value is replaced, its edges lead from the one that replaces it, along the
/// images of their accesses, and the edges of every other address stay, as long as
/// they fit into a batch.
pub proof fn law_subst_moves_edges(
    m: MemoryV,
    old_value: AbstractValue,
    new_value: AbstractValue,
    a: AbstractValue,
    k: int,
)
    requires
        memory_wf(m),
        old_value != new_value,
        0 <= k < edges_at(m, a).values.len(),
        roomy(m, edges_at(m, a), 0),
        a == old_value || a == new_value ==> {
            let (x, y) = (edges_at(m, old_value), edges_at(m, new_value));
            &&& roomy(m, x, recency(y).len() as int)
            &&& roomy(m, y, recency(x).len() as int)
        },
    ensures
        memory_find(
            memory_subst(m, old_value, new_value),
            if a == old_value {
                new_value
            } else {
                a
            },
            if memory_mentions(m, old_value) {
                renamed_access(
                    subst_fn(old_value, new_value),
                    edges_at(m, a).values[k].1.access,
                )
            } else {
                edges_at(m, a).values[k].1.access
            },
        ) is Some,
{
    let e = edges_at(m, a);
    let f = subst_fn(old_value, new_value);
    lemma_lookup_has_key(m.graph, a);
    lemma_subst_graph(m, old_value, new_value, a);
    assert(is_tracked(e, e.values[k].1.access) || e.limit is None);
    lemma_lookup_at::<Key, EdgeEntry>(e.values, k);
    if memory_mentions(m, old_value) {
        lemma_subst_at(m, old_value, new_value, a);
        law_subst_edges_keep_all(e, old_value, new_value, k);
        let s = subst_edges(e, old_value, new_value);
        let b = renamed_access(f, e.values[k].1.access);
        if a == old_value || a == new_value {
            lemma_subst_graph(m, old_value, new_value, old_value);
            lemma_subst_graph(m, old_value, new_value, new_value);
            let (x, y) = (edges_at(m, old_value), edges_at(m, new_value));
            let (sx, sy) = (
                subst_edges(x, old_value, new_value),
                subst_edges(y, old_value, new_value),
            );
            lemma_subst_size(x, old_value, new_value);
            lemma_subst_size(y, old_value, new_value);
            let base = match lookup(m.graph, new_value) {
                Some(n) => sy,
                None => no_edges(m.limit),
            };
            if lookup(m.graph, old_value) is Some {
                lemma_add_all_room(base, sx.values, b);
                if a == old_value {
                    lemma_lookup_has_key(sx.values, b.order());
                    let i = choose|i: int|
                        0 <= i < sx.values.len() && (#[trigger] sx.values[i]).0 == b.order();
                    assert(sx.values[i].1.access.order() == b.order());
                }
            }
        }
    }
}

proof fn lemma_add_len(e: EdgesV, a: Access, v: ValueWithHistory)
    ensures
        add_edge(e, a, v).values.len() <= e.values.len() + 1,
{
    let values = crate::heap_model::bind(e.values, a, v);
    let access = match lookup(e.values, a.order()) {
        Some(entry) => entry.access,
        None => a,
    };
    lemma_put_len(e.values, a.order(), EdgeEntry { access, value: v });
    if let Some(limit) = e.limit {
        let rest = without(e.new_keys, a);
        let p = |x: (KeyV, EdgeEntry)| listed(seq![a], x.1.access) || listed(rest, x.1.access);
        assert(crate::heap_model::kept(values, seq![a], rest) == values.filter(p));
        lemma_filter_len(values, p);
    }
}

proof fn lemma_filter_len<A>(s: Seq<A>, p: spec_fn(A) -> bool)
    ensures
        s.filter(p).len() <= s.len(),
    decreases s.len(),
{
    reveal(Seq::filter);
    if s.len() > 0 {
        lemma_filter_len(s.drop_last(), p);
    }
}

proof fn lemma_put_len(s: Seq<(KeyV, EdgeEntry)>, k: KeyV, v: EdgeEntry)
    ensures
        put::<Key, EdgeEntry>(s, k, v).len() <= s.len() + 1,
    decreases s.len(),
{
    if s.len() > 0 {
        lemma_put_len(s.drop_first(), k, v);
    }
}

proof fn lemma_rebuilt_len(s: Seq<Binding>, size: usize)
    ensures
        rebuilt(s, Some(size), size).values.len() <= s.len(),
        rebuilt(s, Some(size), size).limit == Some(size),
    decreases s.len(),
{
    if s.len() > 0 {
        let t = s.drop_first();
        lemma_rebuilt_len(t, size);
        let rest = rebuilt(t, Some(size), size);
        lemma_add_len(rest, s[0].0, s[0].1);
        assert(add_edge(rest, s[0].0, s[0].1) == add_limited(rest, s[0].0, s[0].1, size));
    }
}

/// The image of edges that fit into a batch has no more, all in the newest batch.
proof fn lemma_subst_size(e: EdgesV, old_value: AbstractValue, new_value: AbstractValue)
    requires
        edges_wf(e),
        e.limit matches Some(size) ==> recency(e).len() <= batch_size(size),
    ensures
        ({
            let s = subst_edges(e, old_value, new_value);
            &&& edges_wf(s)
            &&& s.limit == e.limit
            &&& e.limit is Some ==> s.values.len() <= recency(e).len() && s.new_keys.len()
                <= recency(e).len()
        }),
{
    let f = subst_fn(old_value, new_value);
    let s = renamed_bindings(f, recency(e));
    law_edges_of_add_none(s, e.limit, Access::Dereference);
    if s.len() > 0 {
        law_edges_of_keep_all(s, e.limit, 0);
    }
    if let Some(size) = e.limit {
        lemma_rebuilt_len(s, size);
    }
}

/// Every edge after a value was replaced is the image of an edge before: from the
/// same address, or, from the one that replaces it, from either.
pub proof fn law_subst_adds_no_edges(
    m: MemoryV,
    old_value: AbstractValue,
    new_value: AbstractValue,
    a: AbstractValue,
    access: Access,
)
    requires
        memory_wf(m),
        old_value != new_value,
        memory_mentions(m, old_value),
        a != old_value,
    ensures
        memory_find(memory_subst(m, old_value, new_value), a, access) matches Some(v) ==> exists|
            b: AbstractValue,
            x: Access,
        |
            (b == a || (a == new_value && b == old_value)) && renamed_access(
                subst_fn(old_value, new_value),
                x,
            ).order() == access.order() && (#[trigger] memory_find(m, b, x) matches Some(w) && v
                == renamed_value(subst_fn(old_value, new_value), w)),
{
    lemma_subst_at(m, old_value, new_value, a);
    lemma_subst_graph(m, old_value, new_value, a);
    lemma_subst_graph(m, old_value, new_value, old_value);
    if let Some(v) = memory_find(memory_subst(m, old_value, new_value), a, access) {
        let base = match lookup(m.graph, a) {
            Some(n) => subst_edges(n, old_value, new_value),
            None => no_edges(m.limit),
        };
        if let Some(n) = lookup(m.graph, a) {
            law_subst_edges_add_none(n, old_value, new_value, access);
        }
        if a == new_value && lookup(m.graph, old_value) is Some {
            let e = lookup(m.graph, old_value)->0;
            let s = subst_edges(e, old_value, new_value);
            law_subst_edges_add_none(e, old_value, new_value, access);
            lemma_add_all_from(base, s.values, access);
            if find_edge(base, access) != Some(v) {
                let i = choose|i: int|
                    0 <= i < s.values.len() && (#[trigger] s.values[i]).1.access.order()
                        == access.order() && s.values[i].1.value == v;
                lemma_lookup_at::<Key, EdgeEntry>(s.values, i);
                assert(find_edge(s, access) == Some(v));
                let x = choose|x: Access|
                    renamed_access(subst_fn(old_value, new_value), x).order() == access.order() && (
                    #[trigger] find_edge(e, x) matches Some(w) && v == renamed_value(
                        subst_fn(old_value, new_value),
                        w,
                    ));
                assert(memory_find(m, old_value, x) == find_edge(e, x));
            }
        }
        if find_edge(base, access) == Some(v) {
            let n = lookup(m.graph, a)->0;
            let x = choose|x: Access|
                renamed_access(subst_fn(old_value, new_value), x).order() == access.order() && (
                #[trigger] find_edge(n, x) matches Some(w) && v == renamed_value(
                    subst_fn(old_value, new_value),
                    w,
                ));
            assert(memory_find(m, a, x) == find_edge(n, x));
        }
    }
}

/// Two addresses cannot be one where both have edges. Otherwise the edges of the one
/// replaced are those of the one that replaces it.
pub proof fn law_subst_possible(m: MemoryV, old_value: AbstractValue, new_value: AbstractValue)
    requires
        memory_wf(m),
        old_value != new_value,
        roomy(m, edges_at(m, old_value), 0),
        roomy(m, edges_at(m, new_value), 0),
    ensures
        ({
            let (r, possible) = memory_subst_or_unsat(m, old_value, new_value);
            let (x, y) = (edges_at(m, old_value).values, edges_at(m, new_value).values);
            &&& possible <==> x.len() == 0 || y.len() == 0
            &&& possible ==> lookup(r.graph, old_value) is None
            &&& possible && x.len() > 0 ==> lookup(r.graph, new_value) == Some(
                subst_edges(edges_at(m, old_value), old_value, new_value),
            )
        }),
{
    let m1 = MemoryV { graph: subst_graph(m.graph, old_value, new_value), ..m };
    let (x, y) = (edges_at(m, old_value), edges_at(m, new_value));
    lemma_subst_graph(m, old_value, new_value, old_value);
    lemma_subst_graph(m, old_value, new_value, new_value);
    lemma_subst_empty(m, x, old_value, new_value);
    lemma_subst_empty(m, y, old_value, new_value);
    if memory_mentions(m, old_value) {
        if let Some(e) = lookup(m1.graph, old_value) {
            let m2 = without_address(m1, old_value);
            lemma_del_sorted::<AbstractValue, EdgesV>(m1.graph, old_value);
            lemma_lookup_del::<AbstractValue, EdgesV>(m1.graph, old_value, old_value);
            lemma_lookup_del::<AbstractValue, EdgesV>(m1.graph, old_value, new_value);
            lemma_lookup_put::<AbstractValue, EdgesV>(m2.graph, new_value, e, old_value);
            lemma_lookup_put::<AbstractValue, EdgesV>(m2.graph, new_value, e, new_value);
        }
    }
}

proof fn lemma_subst_empty(
    m: MemoryV,
    e: EdgesV,
    old_value: AbstractValue,
    new_value: AbstractValue,
)
    requires
        edges_wf(e),
        roomy(m, e, 0),
    ensures
        subst_edges(e, old_value, new_value).values.len() == 0 <==> e.values.len() == 0,
{
    let s = subst_edges(e, old_value, new_value);
    if e.values.len() > 0 {
        assert(is_tracked(e, e.values[0].1.access) || e.limit is None);
        law_subst_edges_keep_all(e, old_value, new_value, 0);
        let b = renamed_access(subst_fn(old_value, new_value), e.values[0].1.access);
        lemma_lookup_has_key(s.values, b.order());
    } else if s.values.len() > 0 {
        let a = s.values[0].1.access;
        law_subst_edges_add_none(e, old_value, new_value, a);
        lemma_lookup_at::<Key, EdgeEntry>(s.values, 0);
        let b = choose|b: Access|
            renamed_access(subst_fn(old_value, new_value), b).order() == a.order() && (
            #[trigger] find_edge(e, b)) is Some;
        lemma_lookup_has_key(e.values, b.order());
    }
}

pub proof fn lemma_without_listed(keys: Seq<Access>, a: Access, x: Access)
    requires
        listed(keys, x),
        x.key() != a.key(),
    ensures
        listed(without(keys, a), x),
    decreases keys.len(),
{
    let i = choose|i: int| 0 <= i < keys.len() && (#[trigger] keys[i]).key() == x.key();
    let t = keys.drop_first();
    let r = without(keys, a);
    if keys[0].key() == a.key() {
        assert(t[i - 1].key() == x.key());
    } else if i == 0 {
        assert(r[0].key() == x.key());
    } else {
        assert(t[i - 1].key() == x.key());
        lemma_without_listed(t, a, x);
        let u = without(t, a);
        let j = choose|j: int| 0 <= j < u.len() && (#[trigger] u[j]).key() == x.key();
        assert(r[j + 1].key() == x.key());
    }
}

/// Adding an edge keeps every edge of the newest batch, whatever is dropped.
pub proof fn law_newest_batch_survives(e: EdgesV, a: Access, v: ValueWithHistory, k: int)
    requires
        edges_wf(e),
        0 <= k < e.values.len(),
        listed(e.new_keys, e.values[k].1.access),
        e.values[k].0 != a.order(),
    ensures
        find_edge(add_edge(e, a, v), e.values[k].1.access) == Some(e.values[k].1.value),
{
    let x = e.values[k].1.access;
    lemma_lookup_at::<Key, EdgeEntry>(e.values, k);
    law_find_after_add(e, a, v, x);
    if x.key() == a.key() {
        law_key_gives_order(x, a);
    } else {
        lemma_without_listed(e.new_keys, a, x);
    }
}

/// The edge added last is the newest: it comes first among those remembered.
pub proof fn law_added_is_newest(e: EdgesV, a: Access, v: ValueWithHistory)
    requires
        edges_wf(e),
        e.limit is Some,
        !forgotten(e, a),
    ensures
        recency(add_edge(e, a, v)).len() > 0,
        recency(add_edge(e, a, v))[0] == (a, v),
{
    let r = add_edge(e, a, v);
    law_find_after_add(e, a, v, a);
    assert(r.new_keys[0] == a);
    let none: Seq<Access> = seq![];
    let first = bound_here(r.values, r.new_keys[0], none);
    assert(!listed(none, a));
    assert(first =~= seq![(a, v)]);
    let s = bound(r.values, r.new_keys, none);
    assert(s[0] == first[0]);
    assert(recency(r)[0] == s[0]);
}

/// All edges are in the newest batch, which is within the limit.
pub open spec fn in_newest_batch(e: EdgesV) -> bool {
    e.limit matches Some(limit) ==> {
        &&& e.new_keys.len() <= batch_size(limit)
        &&& forall|k: int|
            0 <= k < e.values.len() ==> listed(e.new_keys, (#[trigger] e.values[k]).1.access)
    }
}

proof fn lemma_without_shorter(keys: Seq<Access>, a: Access)
    requires
        listed(keys, a),
    ensures
        without(keys, a).len() + 1 == keys.len(),
    decreases keys.len(),
{
    let i = choose|i: int| 0 <= i < keys.len() && (#[trigger] keys[i]).key() == a.key();
    if keys[0].key() != a.key() {
        assert(keys.drop_first()[i - 1].key() == a.key());
        lemma_without_shorter(keys.drop_first(), a);
    }
}

/// Binding an edge anew, where all are in the newest batch, drops none.
pub proof fn law_rebinding_keeps_all(e: EdgesV, k: int, v: ValueWithHistory, b: Access)
    requires
        edges_wf(e),
        in_newest_batch(e),
        0 <= k < e.values.len(),
    ensures
        edges_wf(add_edge(e, e.values[k].1.access, v)),
        in_newest_batch(add_edge(e, e.values[k].1.access, v)),
        lookup(add_edge(e, e.values[k].1.access, v).values, b.order()) == if b.order()
            == e.values[k].0 {
            Some(EdgeEntry { access: e.values[k].1.access, value: v })
        } else {
            lookup(e.values, b.order())
        },
{
    let a = e.values[k].1.access;
    let r = add_edge(e, a, v);
    let entry = EdgeEntry { access: a, value: v };
    law_add_wf(e, a, v);
    lemma_lookup_at::<Key, EdgeEntry>(e.values, k);
    lemma_lookup_put::<Key, EdgeEntry>(e.values, a.order(), entry, b.order());
    if let Some(limit) = e.limit {
        assert(listed(e.new_keys, e.values[k].1.access));
        lemma_without_shorter(e.new_keys, a);
        assert(r.values == put::<Key, EdgeEntry>(e.values, a.order(), entry));
        assert forall|i: int| 0 <= i < r.values.len() implies listed(
            r.new_keys,
            (#[trigger] r.values[i]).1.access,
        ) by {
            lemma_put_members::<Key, EdgeEntry>(e.values, a.order(), entry, i);
            let x = r.values[i].1.access;
            if x.key() == a.key() {
                assert(r.new_keys[0].key() == x.key());
            } else {
                let j = choose|j: int| 0 <= j < e.values.len() && #[trigger] e.values[j] == r.values[i];
                assert(listed(e.new_keys, e.values[j].1.access));
                lemma_without_listed(e.new_keys, a, x);
                let rest = without(e.new_keys, a);
                let q = choose|q: int| 0 <= q < rest.len() && (#[trigger] rest[q]).key() == x.key();
                assert(r.new_keys[q + 1].key() == x.key());
            }
        }
    }
}

} // verus!
