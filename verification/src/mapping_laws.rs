//! What a heap holds after its values were mapped.

use crate::abstract_value::AbstractValue;
use crate::access::{renamed_access, Access};
use crate::edge_laws::{
    law_edges_of_add_none, law_edges_of_keep_all, law_recency_has_all, law_recency_is_found,
    lemma_renamed_order,
};
use crate::heap_laws::{edges_wf, is_tracked};
use crate::heap_model::{
    batch_size, find_canonical, find_edge, first_canonical, first_moved, found_under, moves_access,
    moves_some_access, moves_some_target, recency, renamed_binding, renamed_bindings, renamed_edges,
    renamed_graph, renamed_value, retargeted, EdgeEntry, EdgesV, ValueFn,
};
use crate::key::{Key, KeyV, Keyed};
use crate::ordered::{
    lemma_lookup_at, lemma_lookup_has_key, lemma_lookup_put, lemma_put_sorted, lookup, sorted,
    OrdKey,
};
use vstd::prelude::*;

verus! {

/// Every edge is remembered.
pub open spec fn all_remembered(e: EdgesV) -> bool {
    forall|k: int|
        0 <= k < e.values.len() ==> is_tracked(e, (#[trigger] e.values[k]).1.access) || (
        e.new_keys.len() == 0 && e.old_keys.len() == 0)
}

/// The mapping changes neither the index nor the target of the edge.
pub open spec fn stays(m: ValueFn, x: EdgeEntry) -> bool {
    !moves_access(m, x.access) && m(x.value.addr) == x.value.addr
}

proof fn lemma_nothing_moved(s: Seq<(KeyV, EdgeEntry)>, m: ValueFn)
    ensures
        first_moved(s, m) is None ==> forall|k: int|
            0 <= k < s.len() ==> stays(m, (#[trigger] s[k]).1),
    decreases s.len(),
{
    if s.len() > 0 && first_moved(s, m) is None {
        let t = s.drop_first();
        lemma_nothing_moved(t, m);
        assert forall|k: int| 0 <= k < s.len() implies stays(m, (#[trigger] s[k]).1) by {
            if k > 0 {
                assert(t[k - 1] == s[k]);
            }
        }
    }
}

/// Where no remembered binding moves, no remembered edge does.
proof fn lemma_remembered_stay(e: EdgesV, m: ValueFn, k: int)
    requires
        edges_wf(e),
        all_remembered(e),
        0 <= k < e.values.len(),
        !moves_some_access(m, recency(e)),
    ensures
        !moves_access(m, e.values[k].1.access),
        !moves_some_target(m, recency(e)) ==> m(e.values[k].1.value.addr)
            == e.values[k].1.value.addr,
{
    let x = e.values[k].1;
    assert(is_tracked(e, x.access) || (e.new_keys.len() == 0 && e.old_keys.len() == 0));
    law_recency_has_all(e, k);
    let r = recency(e);
    let i = choose|i: int| 0 <= i < r.len() && (#[trigger] r[i]).0.order() == e.values[k].0;
    law_recency_is_found(e, i);
    lemma_lookup_at::<Key, EdgeEntry>(e.values, k);
    assert(!moves_access(m, r[i].0));
    lemma_same_index(r[i].0, x.access);
}

proof fn lemma_same_index(a: Access, b: Access)
    requires
        a.order() == b.order(),
    ensures
        a is ArrayAccess <==> b is ArrayAccess,
        a matches Access::ArrayAccess(_, i) ==> (b matches Access::ArrayAccess(_, j) && i == j),
{
    let (x, y) = (a.order(), b.order());
    assert(x[0] == y[0]);
    if a is ArrayAccess || b is ArrayAccess {
        assert(x[1] == y[1]);
    }
}

proof fn lemma_retargeted(e: EdgesV, m: ValueFn, a: Access)
    requires
        edges_wf(e),
        all_remembered(e),
    ensures
        lookup(retargeted(e.values, recency(e), m), a.order()) == match lookup(
            e.values,
            a.order(),
        ) {
            Some(x) => Some(EdgeEntry { access: x.access, value: renamed_value(m, x.value) }),
            None => None,
        },
{
    let s = recency(e);
    let t = retargeted(e.values, s, m);
    assert forall|i: int, j: int| 0 <= i < j < t.len() implies <Key as OrdKey>::lt(
        (#[trigger] t[i]).0,
        (#[trigger] t[j]).0,
    ) by {
        assert(<Key as OrdKey>::lt(e.values[i].0, e.values[j].0));
    }
    lemma_lookup_has_key(e.values, a.order());
    lemma_lookup_has_key(t, a.order());
    if let Some(x) = lookup(e.values, a.order()) {
        let k = choose|k: int| 0 <= k < e.values.len() && (#[trigger] e.values[k]) == (a.order(), x);
        assert(is_tracked(e, x.access) || (e.new_keys.len() == 0 && e.old_keys.len() == 0));
        law_recency_has_all(e, k);
        assert(found_under(s, e.values[k].0));
        lemma_lookup_at::<Key, EdgeEntry>(t, k);
        assert(t[k].0 == a.order());
    } else if let Some(x) = lookup(t, a.order()) {
        let k = choose|k: int| 0 <= k < t.len() && (#[trigger] t[k]) == (a.order(), x);
        assert(e.values[k].0 == a.order());
    }
}

/// Mapping the values of edges that are remembered and fit into a batch keeps each of
/// them, along the image of its access.
pub proof fn law_mapped_edges_keep_all(e: EdgesV, m: ValueFn, k: int)
    requires
        edges_wf(e),
        all_remembered(e),
        e.limit matches Some(size) ==> recency(e).len() <= batch_size(size),
        0 <= k < e.values.len(),
    ensures
        find_edge(renamed_edges(e, m), renamed_access(m, e.values[k].1.access)) is Some,
{
    let s = recency(e);
    let x = e.values[k].1;
    lemma_lookup_at::<Key, EdgeEntry>(e.values, k);
    lemma_nothing_moved(e.values, m);
    assert(is_tracked(e, x.access) || (e.new_keys.len() == 0 && e.old_keys.len() == 0));
    if first_moved(e.values, m) is None {
        assert(stays(m, e.values[k].1));
        assert(renamed_access(m, x.access) == x.access);
    } else if moves_some_access(m, s) {
        let t = renamed_bindings(m, s);
        law_recency_has_all(e, k);
        let i = choose|i: int| 0 <= i < s.len() && (#[trigger] s[i]).0.order() == e.values[k].0;
        law_edges_of_keep_all(t, e.limit, i);
        assert(t[i] == renamed_binding(m, s[i]));
        lemma_renamed_order(m, s[i].0, x.access);
    } else {
        lemma_remembered_stay(e, m, k);
        assert(renamed_access(m, x.access) == x.access);
        lemma_retargeted(e, m, x.access);
    }
}

/// Every edge after mapping is the image of one before.
pub proof fn law_mapped_edges_add_none(e: EdgesV, m: ValueFn, a: Access)
    requires
        edges_wf(e),
        all_remembered(e),
    ensures
        find_edge(renamed_edges(e, m), a) matches Some(v) ==> exists|b: Access|
            renamed_access(m, b).order() == a.order() && (#[trigger] find_edge(e, b) matches Some(w)
                && v == renamed_value(m, w)),
{
    let s = recency(e);
    lemma_nothing_moved(e.values, m);
    if let Some(v) = find_edge(renamed_edges(e, m), a) {
        lemma_lookup_has_key(e.values, a.order());
        if first_moved(e.values, m) is Some && moves_some_access(m, s) {
            let t = renamed_bindings(m, s);
            law_edges_of_add_none(t, e.limit, a);
            let i = choose|i: int|
                0 <= i < t.len() && (#[trigger] t[i]).0.order() == a.order() && t[i].1 == v;
            assert(t[i] == renamed_binding(m, s[i]));
            law_recency_is_found(e, i);
            assert(find_edge(e, s[i].0) == Some(s[i].1));
        } else {
            if first_moved(e.values, m) is Some && moves_some_target(m, s) {
                lemma_retargeted(e, m, a);
            }
            let x = lookup(e.values, a.order())->0;
            let k = choose|k: int|
                0 <= k < e.values.len() && (#[trigger] e.values[k]) == (a.order(), x);
            assert(e.values[k].1.access.order() == a.order());
            if first_moved(e.values, m) is None {
                assert(stays(m, e.values[k].1));
            } else {
                lemma_remembered_stay(e, m, k);
            }
            assert(renamed_access(m, x.access) == x.access);
            assert(find_edge(e, x.access) == Some(x.value));
        }
    }
}

/// Mapping a heap so that no two of its addresses become one moves the edges of each
/// address to its image.
pub proof fn law_mapped_graph(g: Seq<(AbstractValue, EdgesV)>, m: ValueFn, i: int)
    requires
        0 <= i < g.len(),
        forall|j: int, k: int|
            0 <= j < k < g.len() ==> m((#[trigger] g[j]).0) != m((#[trigger] g[k]).0),
    ensures
        lookup(renamed_graph(g, m), m(g[i].0)) == Some(renamed_edges(g[i].1, m)),
    decreases g.len(),
{
    let t = g.drop_last();
    let last = g.len() - 1;
    lemma_renamed_graph_sorted(t, m);
    lemma_lookup_put::<AbstractValue, EdgesV>(
        renamed_graph(t, m),
        m(g.last().0),
        renamed_edges(g.last().1, m),
        m(g[i].0),
    );
    if i < last {
        assert(t[i] == g[i]);
        assert(m(g[i].0) != m(g[last].0));
        assert forall|j: int, k: int| 0 <= j < k < t.len() implies m((#[trigger] t[j]).0) != m(
            (#[trigger] t[k]).0,
        ) by {
            assert(m(g[j].0) != m(g[k].0));
        }
        law_mapped_graph(t, m, i);
    }
}

proof fn lemma_renamed_graph_sorted(g: Seq<(AbstractValue, EdgesV)>, m: ValueFn)
    ensures
        sorted::<AbstractValue, EdgesV>(renamed_graph(g, m)),
    decreases g.len(),
{
    if g.len() > 0 {
        lemma_renamed_graph_sorted(g.drop_last(), m);
        lemma_put_sorted::<AbstractValue, EdgesV>(
            renamed_graph(g.drop_last(), m),
            m(g.last().0),
            renamed_edges(g.last().1, m),
        );
    }
}

/// A mapped heap has no addresses but the images of those before, each with the image
/// of the edges of one that it is the image of.
pub proof fn law_mapped_graph_adds_none(
    g: Seq<(AbstractValue, EdgesV)>,
    m: ValueFn,
    a: AbstractValue,
)
    ensures
        lookup(renamed_graph(g, m), a) matches Some(e) ==> exists|i: int|
            0 <= i < g.len() && m((#[trigger] g[i]).0) == a && e == renamed_edges(g[i].1, m),
    decreases g.len(),
{
    if g.len() > 0 {
        let t = g.drop_last();
        let last = g.len() - 1;
        lemma_renamed_graph_sorted(t, m);
        law_mapped_graph_adds_none(t, m, a);
        lemma_lookup_put::<AbstractValue, EdgesV>(
            renamed_graph(t, m),
            m(g.last().0),
            renamed_edges(g.last().1, m),
            a,
        );
        if let Some(e) = lookup(renamed_graph(g, m), a) {
            if m(g[last].0) != a {
                let i = choose|i: int|
                    0 <= i < t.len() && m((#[trigger] t[i]).0) == a && e == renamed_edges(
                        t[i].1,
                        m,
                    );
                assert(g[i] == t[i]);
            }
        }
    }
}

/// Looking up an access up to a mapping gives what is bound to it; for an array element
/// that is not bound, the value of an element whose index has the same image, and none
/// only where there is no such element. Nothing else is found up to a mapping.
pub proof fn law_find_canonical(e: EdgesV, a: Access, m: ValueFn, k: int)
    ensures
        find_edge(e, a) is Some ==> find_canonical(e, a, m) == find_edge(e, a),
        find_edge(e, a) is None && !(a is ArrayAccess) ==> find_canonical(e, a, m) is None,
        find_edge(e, a) is None ==> (find_canonical(e, a, m) matches Some(v) ==> exists|i: int|
            0 <= i < e.values.len() && renamed_access(m, (#[trigger] e.values[i]).1.access).key()
                == renamed_access(m, a).key() && e.values[i].1.value == v),
        a is ArrayAccess && 0 <= k < e.values.len() && renamed_access(
            m,
            e.values[k].1.access,
        ).key() == renamed_access(m, a).key() ==> find_canonical(e, a, m) is Some,
{
    lemma_first_canonical(e.values, a, m, k);
}

proof fn lemma_first_canonical(s: Seq<(KeyV, EdgeEntry)>, a: Access, m: ValueFn, k: int)
    ensures
        first_canonical(s, a, m) matches Some(v) ==> exists|i: int|
            0 <= i < s.len() && renamed_access(m, (#[trigger] s[i]).1.access).key()
                == renamed_access(m, a).key() && s[i].1.value == v,
        0 <= k < s.len() && renamed_access(m, s[k].1.access).key() == renamed_access(m, a).key()
            ==> first_canonical(s, a, m) is Some,
    decreases s.len(),
{
    if s.len() > 0 {
        let t = s.drop_first();
        lemma_first_canonical(t, a, m, k - 1);
        if let Some(v) = first_canonical(s, a, m) {
            if renamed_access(m, s[0].1.access).key() != renamed_access(m, a).key() {
                let i = choose|i: int|
                    0 <= i < t.len() && renamed_access(m, (#[trigger] t[i]).1.access).key()
                        == renamed_access(m, a).key() && t[i].1.value == v;
                assert(s[i + 1] == t[i]);
            }
        }
        if 0 < k < s.len() {
            assert(t[k - 1] == s[k]);
        }
    }
}

} // verus!
