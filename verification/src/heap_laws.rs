//! What holds of the heap graph: what was written is read back, what was not
//! touched stays, and no more is remembered than two batches hold.

use crate::abstract_value::AbstractValue;
use crate::access::Access;
use crate::heap_model::{
    accesses_reversed, add_all, add_edge, add_limited, batch_size, bind, bound, bound_here,
    collected, edges_at, edges_mention, filled, find_edge, found_under, indexed_by, kept, listed,
    mapped_edges, memory_add, memory_find, memory_mentions, memory_subst, moves_some_access,
    moves_some_target, overridden, rebuilt, recency, remove_edge, renamed_binding, renamed_bindings,
    retargeted, spilled, subst_edges, subst_fn, subst_graph, union_batches, union_left,
    union_values, without, without_address, Binding, EdgeEntry, EdgesV, MemoryV, ValueFn,
};
use crate::key::{Key, KeyV, Keyed, PartV};
use crate::ordered::{
    del, lemma_del_members, lemma_del_sorted, lemma_filter_members, lemma_filter_sorted,
    lemma_lookup_at, lemma_lookup_del, lemma_lookup_has_key, lemma_lookup_put, lemma_put_members,
    lemma_put_sorted, lookup, put, sorted, OrdKey,
};
use crate::value_history::ValueWithHistory;
use vstd::prelude::*;

verus! {

/// The edges are in order, and each is found by its access.
pub open spec fn edges_wf(e: EdgesV) -> bool {
    &&& sorted::<Key, EdgeEntry>(e.values)
    &&& forall|i: int|
        0 <= i < e.values.len() ==> (#[trigger] e.values[i]).1.access.order() == e.values[i].0
}

/// The addresses are in order, and so are the edges of each.
pub open spec fn memory_wf(m: MemoryV) -> bool {
    &&& sorted::<AbstractValue, EdgesV>(m.graph)
    &&& forall|i: int| 0 <= i < m.graph.len() ==> edges_wf((#[trigger] m.graph[i]).1)
}

spec fn access_tag(a: Access) -> int {
    match a {
        Access::FieldAccess(_) => 0,
        Access::ArrayAccess(_, _) => 1,
        Access::Dereference => 2,
    }
}

/// Equal accesses are found in the same place.
pub proof fn law_key_gives_order(a: Access, b: Access)
    requires
        a.key() == b.key(),
    ensures
        a.order() == b.order(),
{
    assert(a.key()[0] == PartV::Number(access_tag(a)));
    assert(b.key()[0] == PartV::Number(access_tag(b)));
    match (a, b) {
        (Access::FieldAccess(f), Access::FieldAccess(g)) => {
            assert(a.key().last() == f.key().last());
            assert(b.key().last() == g.key().last());
            assert(f.key().last() == PartV::Text(f.field_name@));
            assert(g.key().last() == PartV::Text(g.field_name@));
        },
        (Access::ArrayAccess(t, i), Access::ArrayAccess(u, j)) => {
            assert(a.key().last() == i.key().last());
            assert(b.key().last() == j.key().last());
            assert(i.key().last() == PartV::Number(i.0 as int));
            assert(j.key().last() == PartV::Number(j.0 as int));
        },
        _ => {},
    }
}

/// What is found among the bindings that pass a test.
pub proof fn lemma_lookup_filter<K: OrdKey, B>(
    s: Seq<(K::V, B)>,
    p: spec_fn((K::V, B)) -> bool,
    k: K::V,
)
    requires
        sorted::<K, B>(s),
    ensures
        lookup(s.filter(p), k) == (match lookup(s, k) {
            Some(v) => if p((k, v)) {
                Some(v)
            } else {
                None
            },
            None => None,
        }),
{
    let f = s.filter(p);
    lemma_filter_sorted::<K, B>(s, p);
    lemma_lookup_has_key(f, k);
    lemma_lookup_has_key(s, k);
    if let Some(w) = lookup(f, k) {
        let i = choose|i: int| 0 <= i < f.len() && (#[trigger] f[i]) == (k, w);
        lemma_filter_members(s, p, i);
        let j = choose|j: int| 0 <= j < s.len() && #[trigger] s[j] == f[i];
        lemma_lookup_at::<K, B>(s, j);
    } else if let Some(v) = lookup(s, k) {
        let j = choose|j: int| 0 <= j < s.len() && (#[trigger] s[j]) == (k, v);
        if p((k, v)) {
            s.lemma_filter_contains_rev(p, s[j]);
            let i = choose|i: int| 0 <= i < f.len() && f[i] == s[j];
            assert(f[i].0 == k);
        }
    }
}

/// Adding an edge drops the bindings that neither batch lists.
pub open spec fn starts_batch(e: EdgesV, a: Access) -> bool {
    e.limit matches Some(limit) && without(e.new_keys, a).len() + 1 > batch_size(limit)
}

/// A binding that adding an edge along `a` keeps when it starts a new batch.
pub open spec fn survives(e: EdgesV, a: Access, x: Access) -> bool {
    x.key() == a.key() || listed(without(e.new_keys, a), x)
}

/// The edge that takes the place of one along `a` is forgotten as soon as it is
/// made: a new batch starts, and the place is held by a field of the same name in
/// another class (or by an element of another type) that was not used lately.
pub open spec fn forgotten(e: EdgesV, a: Access) -> bool {
    starts_batch(e, a) && (lookup(e.values, a.order()) matches Some(entry) && !survives(
        e,
        a,
        entry.access,
    ))
}

proof fn lemma_bind(values: Seq<(KeyV, EdgeEntry)>, a: Access, v: ValueWithHistory, k: KeyV)
    requires
        sorted::<Key, EdgeEntry>(values),
    ensures
        sorted::<Key, EdgeEntry>(bind(values, a, v)),
        lookup(bind(values, a, v), k) == (if k == a.order() {
            Some(
                EdgeEntry {
                    access: match lookup(values, k) {
                        Some(entry) => entry.access,
                        None => a,
                    },
                    value: v,
                },
            )
        } else {
            lookup(values, k)
        }),
{
    let access = match lookup(values, a.order()) {
        Some(entry) => entry.access,
        None => a,
    };
    let entry = EdgeEntry { access, value: v };
    lemma_put_sorted::<Key, EdgeEntry>(values, a.order(), entry);
    lemma_lookup_put::<Key, EdgeEntry>(values, a.order(), entry, k);
}

/// What is found along `b` after adding an edge along `a`: the new value, or
/// what was there, unless a new batch starts and the binding is not in it.
pub proof fn law_find_after_add(e: EdgesV, a: Access, v: ValueWithHistory, b: Access)
    requires
        edges_wf(e),
    ensures
        find_edge(add_edge(e, a, v), b) == (if b.order() == a.order() {
            if forgotten(e, a) {
                None
            } else {
                Some(v)
            }
        } else if starts_batch(e, a) && (lookup(e.values, b.order()) matches Some(x) && !survives(
            e,
            a,
            x.access,
        )) {
            None
        } else {
            find_edge(e, b)
        }),
{
    lemma_bind(e.values, a, v, b.order());
    if starts_batch(e, a) {
        let values = bind(e.values, a, v);
        let rest = without(e.new_keys, a);
        let p = |x: (KeyV, EdgeEntry)| listed(seq![a], x.1.access) || listed(rest, x.1.access);
        assert(kept(values, seq![a], rest) == values.filter(p));
        lemma_lookup_filter::<Key, EdgeEntry>(values, p, b.order());
        assert forall|x: Access| #[trigger] listed(seq![a], x) == (x.key() == a.key()) by {
            if x.key() == a.key() {
                assert(seq![a][0].key() == x.key());
            }
        }
    }
}

/// What was written along an access is read back along it.
pub proof fn law_find_added(e: EdgesV, a: Access, v: ValueWithHistory)
    requires
        edges_wf(e),
        !forgotten(e, a),
    ensures
        find_edge(add_edge(e, a, v), a) == Some(v),
{
    law_find_after_add(e, a, v, a);
}

/// Without a limit, or while there is room in the batch, adding an edge changes no
/// other edge.
pub proof fn law_add_keeps_others(e: EdgesV, a: Access, v: ValueWithHistory, b: Access)
    requires
        edges_wf(e),
        !starts_batch(e, a),
        b.order() != a.order(),
    ensures
        find_edge(add_edge(e, a, v), b) == find_edge(e, b),
{
    law_find_after_add(e, a, v, b);
}

/// Adding an edge keeps the edges in order.
pub proof fn law_add_wf(e: EdgesV, a: Access, v: ValueWithHistory)
    requires
        edges_wf(e),
    ensures
        edges_wf(add_edge(e, a, v)),
{
    let values = bind(e.values, a, v);
    lemma_bind(e.values, a, v, a.order());
    assert forall|i: int| 0 <= i < values.len() implies (#[trigger] values[i]).1.access.order()
        == values[i].0 by {
        lemma_bound_access(e.values, a, v, i);
    }
    if starts_batch(e, a) {
        let rest = without(e.new_keys, a);
        let p = |x: (KeyV, EdgeEntry)| listed(seq![a], x.1.access) || listed(rest, x.1.access);
        let f = values.filter(p);
        assert(kept(values, seq![a], rest) == f);
        lemma_filter_sorted::<Key, EdgeEntry>(values, p);
        assert forall|i: int| 0 <= i < f.len() implies (#[trigger] f[i]).1.access.order()
            == f[i].0 by {
            lemma_filter_members(values, p, i);
            let j = choose|j: int| 0 <= j < values.len() && #[trigger] values[j] == f[i];
            assert(values[j].1.access.order() == values[j].0);
        }
    }
}

/// A binding after [`bind`] is the new one or one that was there; the new one has
/// the given access or the one that was there.
proof fn lemma_bound_access(
    values: Seq<(KeyV, EdgeEntry)>,
    a: Access,
    v: ValueWithHistory,
    i: int,
)
    requires
        0 <= i < bind(values, a, v).len(),
    ensures
        ({
            let x = bind(values, a, v)[i];
            ||| x == (a.order(), EdgeEntry { access: a, value: v })
            ||| exists|j: int|
                0 <= j < values.len() && (#[trigger] values[j]).0 == x.0 && values[j].1.access
                    == x.1.access && (x.1.value == v || x.1.value == values[j].1.value)
        }),
{
    let access = match lookup(values, a.order()) {
        Some(entry) => entry.access,
        None => a,
    };
    let entry = EdgeEntry { access, value: v };
    let x = bind(values, a, v)[i];
    lemma_put_members::<Key, EdgeEntry>(values, a.order(), entry, i);
    lemma_lookup_has_key(values, a.order());
    if x == (a.order(), entry) {
        if let Some(old) = lookup(values, a.order()) {
            let j = choose|j: int| 0 <= j < values.len() && (#[trigger] values[j]) == (
                a.order(),
                old,
            );
            assert(values[j].1.access == x.1.access);
        }
    } else {
        let j = choose|j: int| 0 <= j < values.len() && #[trigger] values[j] == x;
        assert(values[j].0 == x.0);
    }
}

/// After removing an access nothing is found along it, and everything else is as
/// before.
pub proof fn law_find_after_remove(e: EdgesV, a: Access, b: Access)
    requires
        edges_wf(e),
    ensures
        find_edge(remove_edge(e, a), b) == (if b.order() == a.order() {
            None
        } else {
            find_edge(e, b)
        }),
{
    lemma_lookup_del::<Key, EdgeEntry>(e.values, a.order(), b.order());
}

/// Removing an access keeps the edges in order.
pub proof fn law_remove_wf(e: EdgesV, a: Access)
    requires
        edges_wf(e),
    ensures
        edges_wf(remove_edge(e, a)),
{
    lemma_del_sorted::<Key, EdgeEntry>(e.values, a.order());
    let d = del(e.values, a.order());
    assert forall|i: int| 0 <= i < d.len() implies (#[trigger] d[i]).1.access.order() == d[i].0 by {
        lemma_del_members(e.values, a.order(), i);
        let j = choose|j: int| 0 <= j < e.values.len() && #[trigger] e.values[j] == d[i];
        assert(e.values[j].1.access.order() == e.values[j].0);
    }
}

/// Both batches are within the limit, and every binding is listed in one of them.
pub open spec fn within_limit(e: EdgesV) -> bool {
    e.limit matches Some(limit) ==> {
        &&& e.new_keys.len() <= batch_size(limit)
        &&& e.old_keys.len() <= batch_size(limit)
        &&& forall|i: int|
            0 <= i < e.values.len() ==> is_tracked(e, (#[trigger] e.values[i]).1.access)
    }
}

/// The access is listed in one of the two batches.
pub open spec fn is_tracked(e: EdgesV, a: Access) -> bool {
    listed(e.new_keys, a) || listed(e.old_keys, a)
}

proof fn lemma_without(keys: Seq<Access>, a: Access, x: Access)
    ensures
        without(keys, a).len() <= keys.len(),
        listed(without(keys, a), x) ==> listed(keys, x),
        listed(keys, x) && x.key() != a.key() ==> listed(without(keys, a), x),
    decreases keys.len(),
{
    if keys.len() > 0 {
        let rest = keys.drop_first();
        let w = without(keys, a);
        lemma_without(rest, a, x);
        if keys[0].key() == a.key() {
            if listed(w, x) {
                let i = choose|i: int| 0 <= i < w.len() && (#[trigger] w[i]).key() == x.key();
                assert(keys[i + 1].key() == x.key());
            }
            if listed(keys, x) && x.key() != a.key() {
                let i = choose|i: int| 0 <= i < keys.len() && (#[trigger] keys[i]).key() == x.key();
                assert(w[i - 1].key() == x.key());
            }
        } else {
            let r = without(rest, a);
            if listed(w, x) {
                let i = choose|i: int| 0 <= i < w.len() && (#[trigger] w[i]).key() == x.key();
                if i == 0 {
                    assert(keys[0].key() == x.key());
                } else {
                    assert(r[i - 1].key() == x.key());
                    let j = choose|j: int|
                        0 <= j < rest.len() && (#[trigger] rest[j]).key() == x.key();
                    assert(keys[j + 1].key() == x.key());
                }
            }
            if listed(keys, x) && x.key() != a.key() {
                let i = choose|i: int| 0 <= i < keys.len() && (#[trigger] keys[i]).key() == x.key();
                if i == 0 {
                    assert(w[0].key() == x.key());
                } else {
                    assert(rest[i - 1].key() == x.key());
                    let j = choose|j: int| 0 <= j < r.len() && (#[trigger] r[j]).key() == x.key();
                    assert(w[j + 1].key() == x.key());
                }
            }
        }
    }
}

/// Adding an edge keeps the batches within the limit.
pub proof fn law_add_within_limit(e: EdgesV, a: Access, v: ValueWithHistory)
    requires
        within_limit(e),
    ensures
        within_limit(add_edge(e, a, v)),
{
    if let Some(limit) = e.limit {
        let r = add_edge(e, a, v);
        let rest = without(e.new_keys, a);
        let values = bind(e.values, a, v);
        lemma_without(e.new_keys, a, a);
        lemma_without(e.old_keys, a, a);
        if starts_batch(e, a) {
            let p = |x: (KeyV, EdgeEntry)| listed(seq![a], x.1.access) || listed(rest, x.1.access);
            assert(r.values == values.filter(p));
            assert forall|i: int| 0 <= i < r.values.len() implies is_tracked(
                r,
                (#[trigger] r.values[i]).1.access,
            ) by {
                lemma_filter_members(values, p, i);
            }
        } else {
            assert forall|i: int| 0 <= i < r.values.len() implies is_tracked(
                r,
                (#[trigger] r.values[i]).1.access,
            ) by {
                let x = r.values[i].1.access;
                lemma_bound_access(e.values, a, v, i);
                if x.key() == a.key() {
                    assert(r.new_keys[0].key() == x.key());
                } else {
                    let j = choose|j: int|
                        0 <= j < e.values.len() && (#[trigger] e.values[j]).1.access == x;
                    assert(is_tracked(e, x));
                    lemma_without(e.new_keys, a, x);
                    lemma_without(e.old_keys, a, x);
                    if listed(rest, x) {
                        let k = choose|k: int|
                            0 <= k < rest.len() && (#[trigger] rest[k]).key() == x.key();
                        assert(r.new_keys[k + 1].key() == x.key());
                    }
                }
            }
        }
    }
}

/// Removing an access keeps the batches within the limit.
pub proof fn law_remove_within_limit(e: EdgesV, a: Access)
    requires
        edges_wf(e),
        within_limit(e),
    ensures
        within_limit(remove_edge(e, a)),
{
    if e.limit is Some {
        let r = remove_edge(e, a);
        lemma_without(e.new_keys, a, a);
        lemma_without(e.old_keys, a, a);
        lemma_del_sorted::<Key, EdgeEntry>(e.values, a.order());
        assert forall|i: int| 0 <= i < r.values.len() implies is_tracked(
            r,
            (#[trigger] r.values[i]).1.access,
        ) by {
            let x = r.values[i].1.access;
            lemma_del_members(e.values, a.order(), i);
            let j = choose|j: int| 0 <= j < e.values.len() && #[trigger] e.values[j] == r.values[i];
            assert(is_tracked(e, e.values[j].1.access));
            lemma_lookup_at::<Key, EdgeEntry>(r.values, i);
            lemma_lookup_del::<Key, EdgeEntry>(e.values, a.order(), r.values[i].0);
            if x.key() == a.key() {
                law_key_gives_order(x, a);
            }
            lemma_without(e.new_keys, a, x);
            lemma_without(e.old_keys, a, x);
        }
    }
}

/// Edges made anew from bindings are within the limit.
proof fn lemma_rebuilt_within_limit(bindings: Seq<Binding>, size: usize)
    ensures
        rebuilt(bindings, Some(size), size).limit == Some(size),
        within_limit(rebuilt(bindings, Some(size), size)),
    decreases bindings.len(),
{
    if bindings.len() > 0 {
        let rest = rebuilt(bindings.drop_first(), Some(size), size);
        lemma_rebuilt_within_limit(bindings.drop_first(), size);
        law_add_within_limit(rest, bindings[0].0, bindings[0].1);
    }
}

/// Replacing a value keeps the batches within the limit.
pub proof fn law_subst_within_limit(e: EdgesV, old_value: AbstractValue, new_value: AbstractValue)
    ensures
        within_limit(subst_edges(e, old_value, new_value)),
{
    if let Some(size) = e.limit {
        lemma_rebuilt_within_limit(
            renamed_bindings(subst_fn(old_value, new_value), recency(e)),
            size,
        );
    }
}

/// Mapping values keeps the batches within the limit.
pub proof fn law_map_within_limit(e: EdgesV, m: ValueFn)
    requires
        within_limit(e),
    ensures
        mapped_edges(e, m) matches Some(r) ==> within_limit(r),
{
    let s = recency(e);
    if moves_some_access(m, s) {
        if let Some(size) = e.limit {
            lemma_rebuilt_within_limit(renamed_bindings(m, s), size);
        }
    } else if moves_some_target(m, s) {
        let r = EdgesV { values: retargeted(e.values, s, m), ..e };
        if e.limit is Some {
            assert forall|i: int| 0 <= i < r.values.len() implies is_tracked(
                r,
                (#[trigger] r.values[i]).1.access,
            ) by {
                assert(is_tracked(e, e.values[i].1.access));
            }
        }
    }
}

proof fn lemma_bound_len(values: Seq<(KeyV, EdgeEntry)>, keys: Seq<Access>, skip: Seq<Access>)
    ensures
        bound(values, keys, skip).len() <= keys.len(),
    decreases keys.len(),
{
    if keys.len() > 0 {
        lemma_bound_len(values, keys.drop_first(), skip);
    }
}

proof fn lemma_spilled_len(
    head: Seq<Access>,
    count: nat,
    take: Seq<Access>,
    rest: Seq<Access>,
    tail: Seq<Access>,
    size: nat,
)
    requires
        count + take.len() <= size,
    ensures
        count + spilled(head, count, take, rest, tail, size).take.len() <= size,
        spilled(head, count, take, rest, tail, size).rest.len() <= rest.len() + tail.len(),
    decreases tail.len(),
{
    if tail.len() > 0 {
        if count + take.len() >= size {
            lemma_spilled_len(head, count, take, rest.push(tail[0]), tail.drop_first(), size);
        } else if listed(head, tail[0]) || listed(take, tail[0]) {
            lemma_spilled_len(head, count, take, rest, tail.drop_first(), size);
        } else {
            lemma_spilled_len(head, count, take.push(tail[0]), rest, tail.drop_first(), size);
        }
    }
}

proof fn lemma_filled_len(head: Seq<Access>, tail: Seq<Access>, size: nat)
    requires
        head.len() <= size,
        tail.len() <= size,
    ensures
        filled(head, tail, size).0.len() <= size,
        filled(head, tail, size).1.len() <= size,
{
    lemma_spilled_len(head, head.len(), seq![], seq![], tail, size);
}

proof fn lemma_union_values_listed(keys: Seq<Access>, a: EdgesV, b: EdgesV)
    ensures
        forall|i: int|
            0 <= i < union_values(keys, a, b).len() ==> listed(
                keys,
                (#[trigger] union_values(keys, a, b)[i]).1.access,
            ),
    decreases keys.len(),
{
    if keys.len() > 0 {
        let rest_keys = keys.drop_last();
        let rest = union_values(rest_keys, a, b);
        let k = keys.last();
        let r = union_values(keys, a, b);
        lemma_union_values_listed(rest_keys, a, b);
        assert forall|i: int| 0 <= i < r.len() implies listed(keys, (#[trigger] r[i]).1.access) by {
            let x = r[i].1.access;
            assert(keys[keys.len() - 1].key() == k.key());
            if x.key() != k.key() {
                if find_edge(a, k) is Some {
                    lemma_bound_access(rest, k, find_edge(a, k)->0, i);
                } else if find_edge(b, k) is Some {
                    lemma_bound_access(rest, k, find_edge(b, k)->0, i);
                }
                let j = choose|j: int| 0 <= j < rest.len() && (#[trigger] rest[j]).1.access == x;
                assert(listed(rest_keys, rest[j].1.access));
                let q = choose|q: int|
                    0 <= q < rest_keys.len() && (#[trigger] rest_keys[q]).key() == x.key();
                assert(keys[q].key() == x.key());
            }
        }
    }
}

/// The union of two sets of edges is within the limit that they have.
pub proof fn law_union_within_limit(a: EdgesV, b: EdgesV)
    requires
        within_limit(a),
        within_limit(b),
        a.limit == b.limit,
    ensures
        within_limit(union_left(a, b)),
{
    if let Some(limit) = a.limit {
        let size = batch_size(limit);
        let s = recency(a);
        lemma_bound_len(a.values, a.new_keys, seq![]);
        lemma_bound_len(a.values, a.old_keys, a.new_keys);
        if a.new_keys.len() == 0 && a.old_keys.len() == 0 && a.values.len() > 0 {
            assert(is_tracked(a, a.values[0].1.access));
        }
        let left = accesses_reversed(s);
        assert(left.len() <= 2 * size);
        let first: (Seq<Access>, Seq<Access>) = if left.len() <= size {
            (left, seq![])
        } else {
            (left.take(size as int), left.skip(size as int))
        };
        if first.0.len() < size {
            lemma_filled_len(first.0, b.new_keys, size);
        }
        let second = if first.0.len() < size {
            filled(first.0, b.new_keys, size)
        } else {
            first
        };
        if second.0.len() < size {
            lemma_filled_len(second.0, b.old_keys, size);
        }
        let r = union_left(a, b);
        let keys = r.new_keys + r.old_keys;
        lemma_union_values_listed(keys, a, b);
        assert forall|i: int| 0 <= i < r.values.len() implies is_tracked(
            r,
            (#[trigger] r.values[i]).1.access,
        ) by {
            let x = r.values[i].1.access;
            assert(listed(keys, x));
            let q = choose|q: int| 0 <= q < keys.len() && (#[trigger] keys[q]).key() == x.key();
            if q < r.new_keys.len() {
                assert(r.new_keys[q].key() == x.key());
            } else {
                assert(r.old_keys[q - r.new_keys.len()].key() == x.key());
            }
        }
    }
}

/// Distinct numbers below a bound are no more than the bound.
proof fn lemma_distinct_bound(s: Seq<int>, n: int)
    requires
        n >= 0,
        forall|i: int| 0 <= i < s.len() ==> 0 <= #[trigger] s[i] < n,
        s.no_duplicates(),
    ensures
        s.len() <= n,
{
    s.unique_seq_to_set();
    let t = s.to_set();
    let all = vstd::set_lib::set_int_range(0, n);
    vstd::set_lib::lemma_int_range(0, n);
    assert(t.subset_of(all));
    vstd::set_lib::lemma_len_subset(t, all);
}

/// A position at which an access is listed.
spec fn place(keys: Seq<Access>, a: Access) -> int {
    choose|i: int| 0 <= i < keys.len() && (#[trigger] keys[i]).key() == a.key()
}

/// No address has more edges than two batches hold.
pub proof fn law_bounded(e: EdgesV, limit: usize)
    requires
        edges_wf(e),
        within_limit(e),
        e.limit == Some(limit),
    ensures
        e.values.len() <= 2 * batch_size(limit),
{
    let keys = e.new_keys + e.old_keys;
    let s = Seq::new(e.values.len(), |i: int| place(keys, e.values[i].1.access));
    assert forall|i: int|
        0 <= i < s.len() implies 0 <= #[trigger] s[i] < keys.len() && keys[s[i]].key()
        == e.values[i].1.access.key() by {
        let a = e.values[i].1.access;
        assert(is_tracked(e, a));
        if listed(e.new_keys, a) {
            let j = choose|j: int|
                0 <= j < e.new_keys.len() && (#[trigger] e.new_keys[j]).key() == a.key();
            assert(keys[j].key() == a.key());
        } else {
            let j = choose|j: int|
                0 <= j < e.old_keys.len() && (#[trigger] e.old_keys[j]).key() == a.key();
            assert(keys[j + e.new_keys.len()].key() == a.key());
        }
    }
    assert forall|i: int, j: int| 0 <= i < s.len() && 0 <= j < s.len() && i != j implies s[i]
        != s[j] by {
        if s[i] == s[j] {
            law_key_gives_order(e.values[i].1.access, e.values[j].1.access);
            assert(e.values[i].1.access.order() == e.values[i].0);
            assert(e.values[j].1.access.order() == e.values[j].0);
            lemma_lookup_at::<Key, EdgeEntry>(e.values, i);
            lemma_lookup_at::<Key, EdgeEntry>(e.values, j);
            if i < j {
                assert(Key::lt(e.values[i].0, e.values[j].0));
            } else {
                assert(Key::lt(e.values[j].0, e.values[i].0));
            }
            <Key as OrdKey>::lt_irreflexive(e.values[i].0);
        }
    }
    lemma_distinct_bound(s, keys.len() as int);
}

proof fn lemma_edges_at(m: MemoryV, src: AbstractValue)
    requires
        memory_wf(m),
    ensures
        edges_wf(edges_at(m, src)),
{
    lemma_lookup_has_key(m.graph, src);
    if let Some(e) = lookup(m.graph, src) {
        let i = choose|i: int| 0 <= i < m.graph.len() && (#[trigger] m.graph[i]) == (src, e);
        assert(edges_wf(m.graph[i].1));
    }
}

/// Adding an edge keeps the heap in order.
pub proof fn law_memory_add_wf(m: MemoryV, src: AbstractValue, a: Access, v: ValueWithHistory)
    requires
        memory_wf(m),
    ensures
        memory_wf(memory_add(m, src, a, v)),
{
    let e = add_edge(edges_at(m, src), a, v);
    let r = memory_add(m, src, a, v);
    lemma_edges_at(m, src);
    law_add_wf(edges_at(m, src), a, v);
    lemma_put_sorted::<AbstractValue, EdgesV>(m.graph, src, e);
    assert forall|i: int| 0 <= i < r.graph.len() implies edges_wf((#[trigger] r.graph[i]).1) by {
        lemma_put_members::<AbstractValue, EdgesV>(m.graph, src, e, i);
        if r.graph[i] != (src, e) {
            let j = choose|j: int| 0 <= j < m.graph.len() && #[trigger] m.graph[j] == r.graph[i];
            assert(edges_wf(m.graph[j].1));
        }
    }
}

/// What was written from an address along an access is read back.
pub proof fn law_memory_write_read(m: MemoryV, src: AbstractValue, a: Access, v: ValueWithHistory)
    requires
        memory_wf(m),
        !forgotten(edges_at(m, src), a),
    ensures
        memory_find(memory_add(m, src, a, v), src, a) == Some(v),
{
    let e = add_edge(edges_at(m, src), a, v);
    lemma_edges_at(m, src);
    law_find_added(edges_at(m, src), a, v);
    lemma_lookup_put::<AbstractValue, EdgesV>(m.graph, src, e, src);
}

/// Writing from one address changes nothing at another.
pub proof fn law_memory_write_elsewhere(
    m: MemoryV,
    src: AbstractValue,
    a: Access,
    v: ValueWithHistory,
    other: AbstractValue,
    b: Access,
)
    requires
        memory_wf(m),
        other != src,
    ensures
        memory_find(memory_add(m, src, a, v), other, b) == memory_find(m, other, b),
{
    let e = add_edge(edges_at(m, src), a, v);
    lemma_lookup_put::<AbstractValue, EdgesV>(m.graph, src, e, other);
}

/// Neither the index nor the target of the binding is `v`.
pub open spec fn is_free_of(x: EdgeEntry, v: AbstractValue) -> bool {
    x.value.addr != v && !indexed_by(x.access, v)
}

/// No binding mentions `v`.
pub open spec fn all_free_of(s: Seq<(KeyV, EdgeEntry)>, v: AbstractValue) -> bool {
    forall|i: int| 0 <= i < s.len() ==> is_free_of((#[trigger] s[i]).1, v)
}

proof fn lemma_free_edges(e: EdgesV, v: AbstractValue)
    ensures
        all_free_of(e.values, v) == !edges_mention(e, v),
{
    if !all_free_of(e.values, v) {
        let i = choose|i: int|
            0 <= i < e.values.len() && !is_free_of((#[trigger] e.values[i]).1, v);
        assert(e.values[i].1.value.addr == v || indexed_by(e.values[i].1.access, v));
    }
    if edges_mention(e, v) {
        let i = choose|i: int|
            0 <= i < e.values.len() && ((#[trigger] e.values[i]).1.value.addr == v || indexed_by(
                e.values[i].1.access,
                v,
            ));
        assert(!is_free_of(e.values[i].1, v));
    }
}

proof fn lemma_bind_free(
    values: Seq<(KeyV, EdgeEntry)>,
    a: Access,
    x: ValueWithHistory,
    v: AbstractValue,
)
    requires
        all_free_of(values, v),
        x.addr != v,
        !indexed_by(a, v),
    ensures
        all_free_of(bind(values, a, x), v),
{
    let r = bind(values, a, x);
    assert forall|i: int| 0 <= i < r.len() implies is_free_of((#[trigger] r[i]).1, v) by {
        lemma_bound_access(values, a, x, i);
        if r[i] != (a.order(), EdgeEntry { access: a, value: x }) {
            let j = choose|j: int|
                0 <= j < values.len() && (#[trigger] values[j]).0 == r[i].0 && values[j].1.access
                    == r[i].1.access && (r[i].1.value == x || r[i].1.value == values[j].1.value);
            assert(is_free_of(values[j].1, v));
        }
    }
}

proof fn lemma_add_free(e: EdgesV, a: Access, x: ValueWithHistory, limit: usize, v: AbstractValue)
    requires
        all_free_of(e.values, v),
        x.addr != v,
        !indexed_by(a, v),
    ensures
        all_free_of(add_limited(e, a, x, limit).values, v),
        all_free_of(add_edge(e, a, x).values, v),
{
    let values = bind(e.values, a, x);
    lemma_bind_free(e.values, a, x, v);
    let rest = without(e.new_keys, a);
    let f = kept(values, seq![a], rest);
    let p = |y: (KeyV, EdgeEntry)| listed(seq![a], y.1.access) || listed(rest, y.1.access);
    assert(f == values.filter(p));
    assert forall|i: int| 0 <= i < f.len() implies is_free_of((#[trigger] f[i]).1, v) by {
        lemma_filter_members(values, p, i);
        let j = choose|j: int| 0 <= j < values.len() && #[trigger] values[j] == f[i];
        assert(is_free_of(values[j].1, v));
    }
}

/// Neither the index nor the target of any binding is `v`.
spec fn bindings_free(s: Seq<Binding>, v: AbstractValue) -> bool {
    forall|i: int|
        0 <= i < s.len() ==> (#[trigger] s[i]).1.addr != v && !indexed_by(s[i].0, v)
}

proof fn lemma_rebuilt_free(s: Seq<Binding>, limit: Option<usize>, size: usize, v: AbstractValue)
    requires
        bindings_free(s, v),
    ensures
        all_free_of(rebuilt(s, limit, size).values, v),
    decreases s.len(),
{
    if s.len() > 0 {
        let rest = s.drop_first();
        assert forall|i: int| 0 <= i < rest.len() implies (#[trigger] rest[i]).1.addr != v
            && !indexed_by(rest[i].0, v) by {
            assert(rest[i] == s[i + 1]);
        }
        lemma_rebuilt_free(rest, limit, size, v);
        lemma_add_free(rebuilt(rest, limit, size), s[0].0, s[0].1, size, v);
    }
}

proof fn lemma_collected_free(s: Seq<Binding>, v: AbstractValue)
    requires
        bindings_free(s, v),
    ensures
        all_free_of(collected(s), v),
    decreases s.len(),
{
    if s.len() > 0 {
        let rest = s.drop_last();
        let b = s.last();
        let entry = EdgeEntry { access: b.0, value: b.1 };
        assert forall|i: int| 0 <= i < rest.len() implies (#[trigger] rest[i]).1.addr != v
            && !indexed_by(rest[i].0, v) by {
            assert(rest[i] == s[i]);
        }
        lemma_collected_free(rest, v);
        let r = collected(s);
        assert forall|i: int| 0 <= i < r.len() implies is_free_of((#[trigger] r[i]).1, v) by {
            lemma_put_members::<Key, EdgeEntry>(collected(rest), b.0.order(), entry, i);
            if r[i] != (b.0.order(), entry) {
                let j = choose|j: int|
                    0 <= j < collected(rest).len() && #[trigger] collected(rest)[j] == r[i];
                assert(is_free_of(collected(rest)[j].1, v));
            }
        }
    }
}

/// Replacing a value leaves no edge that mentions it.
pub proof fn law_edges_subst_forgets(e: EdgesV, old: AbstractValue, new: AbstractValue)
    requires
        old != new,
    ensures
        !edges_mention(subst_edges(e, old, new), old),
{
    let m = subst_fn(old, new);
    let s = renamed_bindings(m, recency(e));
    assert forall|i: int| 0 <= i < s.len() implies (#[trigger] s[i]).1.addr != old && !indexed_by(
        s[i].0,
        old,
    ) by {
        assert(s[i] == renamed_binding(m, recency(e)[i]));
    }
    match e.limit {
        Some(size) => lemma_rebuilt_free(s, e.limit, size, old),
        None => lemma_collected_free(s, old),
    }
    lemma_free_edges(subst_edges(e, old, new), old);
}

proof fn lemma_add_all_free(e: EdgesV, s: Seq<(KeyV, EdgeEntry)>, v: AbstractValue)
    requires
        all_free_of(e.values, v),
        all_free_of(s, v),
    ensures
        all_free_of(add_all(e, s).values, v),
    decreases s.len(),
{
    if s.len() > 0 {
        let rest = s.drop_last();
        assert forall|i: int| 0 <= i < rest.len() implies is_free_of((#[trigger] rest[i]).1, v) by {
            assert(rest[i] == s[i]);
        }
        assert(is_free_of(s[s.len() - 1].1, v));
        lemma_add_all_free(e, rest, v);
        lemma_add_free(add_all(e, rest), s.last().1.access, s.last().1.value, 0, v);
    }
}

/// Replacing a value leaves no trace of it in the heap: it is no address, no index
/// and no target any more.
pub proof fn law_memory_subst_forgets(m: MemoryV, old: AbstractValue, new: AbstractValue)
    requires
        memory_wf(m),
        old != new,
    ensures
        !memory_mentions(memory_subst(m, old, new), old),
{
    if memory_mentions(m, old) {
        let g1 = subst_graph(m.graph, old, new);
        let m1 = MemoryV { graph: g1, ..m };
        assert forall|i: int| 0 <= i < g1.len() implies !edges_mention(
            (#[trigger] g1[i]).1,
            old,
        ) by {
            law_edges_subst_forgets(m.graph[i].1, old, new);
        }
        assert forall|i: int, j: int| 0 <= i < j < g1.len() implies <AbstractValue as OrdKey>::lt(
            (#[trigger] g1[i]).0,
            (#[trigger] g1[j]).0,
        ) by {
            assert(g1[i].0 == m.graph[i].0 && g1[j].0 == m.graph[j].0);
        }
        lemma_lookup_has_key(g1, old);
        if let Some(e) = lookup(g1, old) {
            let m2 = without_address(m1, old);
            let g2 = m2.graph;
            lemma_del_sorted::<AbstractValue, EdgesV>(g1, old);
            assert forall|i: int| 0 <= i < g2.len() implies !edges_mention(
                (#[trigger] g2[i]).1,
                old,
            ) by {
                lemma_del_members(g1, old, i);
                let j = choose|j: int| 0 <= j < g1.len() && #[trigger] g1[j] == g2[i];
                assert(!edges_mention(g1[j].1, old));
            }
            let k = choose|k: int| 0 <= k < g1.len() && (#[trigger] g1[k]) == (old, e);
            assert(!edges_mention(g1[k].1, old));
            lemma_free_edges(e, old);
            lemma_lookup_has_key(g2, new);
            let base = edges_at(m2, new);
            if let Some(b) = lookup(g2, new) {
                let k2 = choose|k2: int| 0 <= k2 < g2.len() && (#[trigger] g2[k2]) == (new, b);
                assert(!edges_mention(g2[k2].1, old));
            }
            lemma_free_edges(base, old);
            let merged = add_all(base, e.values);
            lemma_add_all_free(base, e.values, old);
            lemma_free_edges(merged, old);
            let g3 = put::<AbstractValue, EdgesV>(g2, new, merged);
            assert forall|i: int| 0 <= i < g3.len() implies !edges_mention(
                (#[trigger] g3[i]).1,
                old,
            ) by {
                lemma_put_members::<AbstractValue, EdgesV>(g2, new, merged, i);
                if g3[i] != (new, merged) {
                    let j = choose|j: int| 0 <= j < g2.len() && #[trigger] g2[j] == g3[i];
                    assert(!edges_mention(g2[j].1, old));
                }
            }
            lemma_lookup_del::<AbstractValue, EdgesV>(g1, old, old);
            lemma_lookup_put::<AbstractValue, EdgesV>(g2, new, merged, old);
        }
    }
}

/// Replacing a value that does not occur changes nothing.
pub proof fn law_memory_subst_absent(m: MemoryV, old: AbstractValue, new: AbstractValue)
    requires
        !memory_mentions(m, old),
    ensures
        memory_subst(m, old, new) == m,
{
}

/// The value along `k` in `a`, else in `b`.
pub open spec fn left_or_right(a: EdgesV, b: EdgesV, k: KeyV) -> Option<ValueWithHistory> {
    match lookup(a.values, k) {
        Some(x) => Some(x.value),
        None => match lookup(b.values, k) {
            Some(x) => Some(x.value),
            None => None,
        },
    }
}

/// One of `keys` is found under `k`.
pub open spec fn some_ordered(keys: Seq<Access>, k: KeyV) -> bool {
    exists|i: int| 0 <= i < keys.len() && (#[trigger] keys[i]).order() == k
}

proof fn lemma_union_values(keys: Seq<Access>, a: EdgesV, b: EdgesV, k: KeyV)
    ensures
        sorted::<Key, EdgeEntry>(union_values(keys, a, b)),
        (match lookup(union_values(keys, a, b), k) {
            Some(x) => Some(x.value),
            None => None,
        }) == (if some_ordered(keys, k) {
            left_or_right(a, b, k)
        } else {
            None
        }),
    decreases keys.len(),
{
    if keys.len() > 0 {
        let rest = keys.drop_last();
        let r = union_values(rest, a, b);
        let last = keys.last();
        lemma_union_values(rest, a, b, k);
        if let Some(v) = find_edge(a, last) {
            lemma_bind(r, last, v, k);
        } else if let Some(v) = find_edge(b, last) {
            lemma_bind(r, last, v, k);
        }
        if some_ordered(rest, k) {
            let i = choose|i: int| 0 <= i < rest.len() && (#[trigger] rest[i]).order() == k;
            assert(keys[i].order() == k);
        }
        if last.order() == k {
            assert(keys[keys.len() - 1].order() == k);
        } else if some_ordered(keys, k) {
            let i = choose|i: int| 0 <= i < keys.len() && (#[trigger] keys[i]).order() == k;
            assert(rest[i].order() == k);
        }
    }
}

proof fn lemma_overridden(b: Seq<(KeyV, EdgeEntry)>, s: Seq<(KeyV, EdgeEntry)>, k: KeyV)
    requires
        sorted::<Key, EdgeEntry>(b),
        sorted::<Key, EdgeEntry>(s),
        forall|i: int| 0 <= i < s.len() ==> (#[trigger] s[i]).1.access.order() == s[i].0,
    ensures
        sorted::<Key, EdgeEntry>(overridden(b, s)),
        (match lookup(overridden(b, s), k) {
            Some(x) => Some(x.value),
            None => None,
        }) == (match lookup(s, k) {
            Some(x) => Some(x.value),
            None => match lookup(b, k) {
                Some(x) => Some(x.value),
                None => None,
            },
        }),
    decreases s.len(),
{
    if s.len() > 0 {
        let rest = s.drop_last();
        let last = s.last();
        assert forall|i: int, j: int| 0 <= i < j < rest.len() implies Key::lt(
            (#[trigger] rest[i]).0,
            (#[trigger] rest[j]).0,
        ) by {
            assert(rest[i] == s[i] && rest[j] == s[j]);
        }
        assert forall|i: int| 0 <= i < rest.len() implies (#[trigger] rest[i]).1.access.order()
            == rest[i].0 by {
            assert(rest[i] == s[i]);
        }
        lemma_overridden(b, rest, k);
        assert(s[s.len() - 1] == last);
        assert(last.1.access.order() == last.0);
        lemma_bind(overridden(b, rest), last.1.access, last.1.value, k);
        lemma_lookup_has_key(s, k);
        lemma_lookup_has_key(rest, k);
        if k == last.0 {
            lemma_lookup_at::<Key, EdgeEntry>(s, s.len() - 1);
        } else if let Some(x) = lookup(rest, k) {
            let i = choose|i: int| 0 <= i < rest.len() && (#[trigger] rest[i]) == (k, x);
            assert(s[i] == (k, x));
            lemma_lookup_at::<Key, EdgeEntry>(s, i);
        } else if let Some(x) = lookup(s, k) {
            let i = choose|i: int| 0 <= i < s.len() && (#[trigger] s[i]) == (k, x);
            assert(rest[i].0 == k);
        }
    }
}

/// The batches of a union: all bindings when there is no limit.
pub open spec fn union_holds(a: EdgesV, b: EdgesV, k: Access) -> bool {
    match a.limit {
        None => true,
        Some(limit) => {
            let batches = union_batches(
                accesses_reversed(recency(a)),
                b.new_keys,
                b.old_keys,
                batch_size(limit),
            );
            some_ordered(batches.0 + batches.1, k.order())
        },
    }
}

/// In a union the left operand wins: what the batches hold along an access is its
/// value in the left operand, or else that in the right one.
pub proof fn law_union_prefers_left(a: EdgesV, b: EdgesV, k: Access)
    requires
        edges_wf(a),
        edges_wf(b),
    ensures
        find_edge(union_left(a, b), k) == (if union_holds(a, b, k) {
            left_or_right(a, b, k.order())
        } else {
            None
        }),
{
    match a.limit {
        None => lemma_overridden(b.values, a.values, k.order()),
        Some(limit) => {
            let batches = union_batches(
                accesses_reversed(recency(a)),
                b.new_keys,
                b.old_keys,
                batch_size(limit),
            );
            lemma_union_values(batches.0 + batches.1, a, b, k.order());
        },
    }
}

proof fn lemma_bound_has(
    values: Seq<(KeyV, EdgeEntry)>,
    keys: Seq<Access>,
    skip: Seq<Access>,
    x: Access,
)
    requires
        listed(keys, x),
        !listed(skip, x),
        lookup(values, x.order()) is Some,
    ensures
        found_under(bound(values, keys, skip), x.order()),
    decreases keys.len(),
{
    let rest = keys.drop_first();
    let here = bound_here(values, keys[0], skip);
    let more = bound(values, rest, skip);
    let all = bound(values, keys, skip);
    if keys[0].key() == x.key() {
        law_key_gives_order(keys[0], x);
        assert(!listed(skip, keys[0]));
        assert(all[0] == here[0]);
        assert(all[0].0.order() == x.order());
    } else {
        let i = choose|i: int| 0 <= i < keys.len() && (#[trigger] keys[i]).key() == x.key();
        assert(rest[i - 1].key() == x.key());
        lemma_bound_has(values, rest, skip, x);
        let j = choose|j: int| 0 <= j < more.len() && (#[trigger] more[j]).0.order() == x.order();
        assert(all[here.len() + j] == more[j]);
    }
}

/// A binding that is remembered, or any when there is no record, is among the recent.
proof fn lemma_recent(e: EdgesV, k: KeyV)
    requires
        edges_wf(e),
        lookup(e.values, k) is Some,
        is_tracked(e, (lookup(e.values, k)->0).access) || (e.new_keys.len() == 0
            && e.old_keys.len() == 0),
    ensures
        found_under(recency(e), k),
{
    let entry = lookup(e.values, k)->0;
    lemma_lookup_has_key(e.values, k);
    let i = choose|i: int| 0 <= i < e.values.len() && (#[trigger] e.values[i]) == (k, entry);
    assert(entry.access.order() == k);
    let s = recency(e);
    if e.new_keys.len() == 0 && e.old_keys.len() == 0 {
        assert(s[i].0.order() == k);
    } else {
        let newer = bound(e.values, e.new_keys, seq![]);
        let older = bound(e.values, e.old_keys, e.new_keys);
        if listed(e.new_keys, entry.access) {
            lemma_bound_has(e.values, e.new_keys, seq![], entry.access);
            let j = choose|j: int| 0 <= j < newer.len() && (#[trigger] newer[j]).0.order() == k;
            assert(s[j] == newer[j]);
        } else {
            lemma_bound_has(e.values, e.old_keys, e.new_keys, entry.access);
            let j = choose|j: int| 0 <= j < older.len() && (#[trigger] older[j]).0.order() == k;
            assert(s[newer.len() + j] == older[j]);
        }
    }
}

proof fn lemma_filled_keeps(head: Seq<Access>, tail: Seq<Access>, size: nat, k: KeyV)
    requires
        some_ordered(head, k),
    ensures
        some_ordered(filled(head, tail, size).0, k),
{
    let i = choose|i: int| 0 <= i < head.len() && (#[trigger] head[i]).order() == k;
    assert(filled(head, tail, size).0[i] == head[i]);
}

/// The batches of a union list every access of the left operand.
proof fn lemma_batches_keep_left(
    left: Seq<Access>,
    right_new: Seq<Access>,
    right_old: Seq<Access>,
    size: nat,
    k: KeyV,
)
    requires
        some_ordered(left, k),
    ensures
        ({
            let r = union_batches(left, right_new, right_old, size);
            some_ordered(r.0 + r.1, k)
        }),
{
    let r = union_batches(left, right_new, right_old, size);
    let i = choose|i: int| 0 <= i < left.len() && (#[trigger] left[i]).order() == k;
    if left.len() > size {
        assert(r == (left.take(size as int), left.skip(size as int)));
        assert((r.0 + r.1)[i] == left[i]);
    } else {
        let second = if left.len() < size {
            filled(left, right_new, size)
        } else {
            (left, Seq::<Access>::empty())
        };
        if left.len() < size {
            lemma_filled_keeps(left, right_new, size, k);
        }
        if second.0.len() < size {
            lemma_filled_keeps(second.0, right_old, size, k);
        }
        let j = choose|j: int| 0 <= j < r.0.len() && (#[trigger] r.0[j]).order() == k;
        assert((r.0 + r.1)[j] == r.0[j]);
    }
}

/// A union holds every binding of the left operand that one of its batches lists, and
/// every one where it keeps no batches, with its value.
pub proof fn law_union_keeps_left(a: EdgesV, b: EdgesV, k: Access)
    requires
        edges_wf(a),
        edges_wf(b),
        lookup(a.values, k.order()) matches Some(entry) && (a.limit is None || is_tracked(
            a,
            entry.access,
        ) || (a.new_keys.len() == 0 && a.old_keys.len() == 0)),
    ensures
        union_holds(a, b, k),
        find_edge(union_left(a, b), k) == find_edge(a, k),
{
    if let Some(limit) = a.limit {
        lemma_recent(a, k.order());
        let s = recency(a);
        let left = accesses_reversed(s);
        let i = choose|i: int| 0 <= i < s.len() && (#[trigger] s[i]).0.order() == k.order();
        assert(left[s.len() - 1 - i] == s[i].0);
        lemma_batches_keep_left(left, b.new_keys, b.old_keys, batch_size(limit), k.order());
    }
    law_union_prefers_left(a, b, k);
}

/// Edges within their limit lose nothing in a union as its left operand.
pub proof fn law_union_loses_no_left_edge(a: EdgesV, b: EdgesV, k: Access)
    requires
        edges_wf(a),
        edges_wf(b),
        within_limit(a),
        find_edge(a, k) is Some,
    ensures
        find_edge(union_left(a, b), k) == find_edge(a, k),
{
    let entry = lookup(a.values, k.order())->0;
    lemma_lookup_has_key(a.values, k.order());
    let i = choose|i: int| 0 <= i < a.values.len() && (#[trigger] a.values[i]) == (
        k.order(),
        entry,
    );
    assert(a.limit is Some ==> is_tracked(a, a.values[i].1.access));
    law_union_keeps_left(a, b, k);
}

} // verus!
