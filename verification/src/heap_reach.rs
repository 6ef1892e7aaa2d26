//! Addresses connected through the heap.

use crate::abstract_value::AbstractValue;
use crate::base_memory::BaseMemory;
use crate::formula::reachable::{lemma_set_len, lemma_set_put_len};
use crate::formula::resolve::ValueSet;
use crate::heap_model::EdgesV;
use crate::ordered::{lemma_set_put_contains, lookup, set_sorted, OrdKey};
use vstd::prelude::*;

verus! {

/// An edge leads from `a` to `b`.
pub open spec fn points_to(
    g: Seq<(AbstractValue, EdgesV)>,
    a: AbstractValue,
    b: AbstractValue,
) -> bool {
    lookup(g, a) matches Some(e) && exists|i: int|
        0 <= i < e.values.len() && (#[trigger] e.values[i]).1.value.addr == b
}

/// Each value of `p` has an edge to the next.
pub open spec fn is_heap_path(g: Seq<(AbstractValue, EdgesV)>, p: Seq<AbstractValue>) -> bool {
    &&& p.len() > 0
    &&& forall|i: int, j: int|
        0 <= i && j == i + 1 && j < p.len() ==> points_to(g, #[trigger] p[i], #[trigger] p[j])
}

/// Edges lead from `a` to `b`.
pub open spec fn heap_reaches(
    g: Seq<(AbstractValue, EdgesV)>,
    a: AbstractValue,
    b: AbstractValue,
) -> bool {
    exists|p: Seq<AbstractValue>| #[trigger] is_heap_path(g, p) && p[0] == a && p.last() == b
}

/// `s` holds the values that edges lead to from `root`, in increasing order.
pub open spec fn is_reachable_set(
    g: Seq<(AbstractValue, EdgesV)>,
    root: AbstractValue,
    s: Seq<AbstractValue>,
) -> bool {
    &&& set_sorted::<AbstractValue>(s)
    &&& forall|x: AbstractValue| #[trigger] s.contains(x) <==> heap_reaches(g, root, x)
}

/// The values that edges lead to from `root`, in increasing order.
pub open spec fn reachable_set(g: Seq<(AbstractValue, EdgesV)>, root: AbstractValue) -> Seq<
    AbstractValue,
> {
    choose|s: Seq<AbstractValue>| is_reachable_set(g, root, s)
}

/// Two increasing sequences with the same elements are equal.
pub proof fn lemma_same_set(a: Seq<AbstractValue>, b: Seq<AbstractValue>)
    requires
        set_sorted::<AbstractValue>(a),
        set_sorted::<AbstractValue>(b),
        forall|x: AbstractValue| #[trigger] a.contains(x) <==> b.contains(x),
    ensures
        a == b,
    decreases a.len(),
{
    if a.len() == 0 {
        if b.len() > 0 {
            assert(b.contains(b[0]));
            assert(a.contains(b[0]));
        }
        assert(a =~= b);
    } else {
        assert(a.contains(a[0]));
        let i = choose|i: int| 0 <= i < b.len() && b[i] == a[0];
        assert(b.contains(b[0]));
        assert(a.contains(b[0]));
        let j = choose|j: int| 0 <= j < a.len() && a[j] == b[0];
        assert(a[0] == b[0]) by {
            if i > 0 {
                assert(<AbstractValue as OrdKey>::lt(b[0], b[i]));
                if j > 0 {
                    assert(<AbstractValue as OrdKey>::lt(a[0], a[j]));
                }
            }
        }
        let r = a.drop_first();
        let t = b.drop_first();
        assert forall|x: AbstractValue| #[trigger] r.contains(x) implies t.contains(x) by {
            let k = choose|k: int| 0 <= k < r.len() && r[k] == x;
            assert(a[k + 1] == x);
            assert(a.contains(x));
            let l = choose|l: int| 0 <= l < b.len() && b[l] == x;
            assert(<AbstractValue as OrdKey>::lt(a[0], a[k + 1]));
            assert(t[l - 1] == x);
        }
        assert forall|x: AbstractValue| #[trigger] t.contains(x) implies r.contains(x) by {
            let k = choose|k: int| 0 <= k < t.len() && t[k] == x;
            assert(b[k + 1] == x);
            assert(b.contains(x));
            assert(a.contains(x));
            let l = choose|l: int| 0 <= l < a.len() && a[l] == x;
            assert(<AbstractValue as OrdKey>::lt(b[0], b[k + 1]));
            assert(r[l - 1] == x);
        }
        assert forall|i: int, j: int| 0 <= i < j < r.len() implies <AbstractValue as OrdKey>::lt(
            #[trigger] r[i],
            #[trigger] r[j],
        ) by {
            assert(<AbstractValue as OrdKey>::lt(a[i + 1], a[j + 1]));
        }
        assert forall|i: int, j: int| 0 <= i < j < t.len() implies <AbstractValue as OrdKey>::lt(
            #[trigger] t[i],
            #[trigger] t[j],
        ) by {
            assert(<AbstractValue as OrdKey>::lt(b[i + 1], b[j + 1]));
        }
        lemma_same_set(r, t);
        assert(a =~= seq![a[0]] + r);
        assert(b =~= seq![b[0]] + t);
    }
}

proof fn lemma_path_extend(
    g: Seq<(AbstractValue, EdgesV)>,
    root: AbstractValue,
    a: AbstractValue,
    b: AbstractValue,
)
    requires
        heap_reaches(g, root, a),
        points_to(g, a, b),
    ensures
        heap_reaches(g, root, b),
{
    let p = choose|p: Seq<AbstractValue>| #[trigger]
        is_heap_path(g, p) && p[0] == root && p.last() == a;
    let q = p.push(b);
    assert forall|i: int, j: int| 0 <= i && j == i + 1 && j < q.len() implies points_to(
        g,
        #[trigger] q[i],
        #[trigger] q[j],
    ) by {
        if j < p.len() {
            assert(points_to(g, p[i], p[j]));
        }
    }
    assert(is_heap_path(g, q));
    assert(q[0] == root && q.last() == b);
}

proof fn lemma_closed_holds(
    g: Seq<(AbstractValue, EdgesV)>,
    s: Seq<AbstractValue>,
    p: Seq<AbstractValue>,
)
    requires
        is_heap_path(g, p),
        s.contains(p[0]),
        forall|a: AbstractValue, b: AbstractValue|
            s.contains(a) && #[trigger] points_to(g, a, b) ==> s.contains(b),
    ensures
        s.contains(p.last()),
    decreases p.len(),
{
    if p.len() > 1 {
        let q = p.drop_last();
        assert forall|i: int, j: int| 0 <= i && j == i + 1 && j < q.len() implies points_to(
            g,
            #[trigger] q[i],
            #[trigger] q[j],
        ) by {
            assert(points_to(g, p[i], p[j]));
        }
        lemma_closed_holds(g, s, q);
        assert(points_to(g, p[p.len() - 2], p[p.len() - 1]));
        assert(q.last() == p[p.len() - 2]);
    }
}

/// All abstract addresses reachable from `root` via heap edges.
pub fn reachable_from(heap: &BaseMemory, root: AbstractValue) -> (r: ValueSet)
    ensures
        r@ == reachable_set(heap@.graph, root),
        is_reachable_set(heap@.graph, root, r@),
{
    let ghost g = heap@.graph;
    let mut visited = ValueSet::new();
    let mut worklist: Vec<AbstractValue> = Vec::new();
    worklist.push(root);
    proof {
        assert(is_heap_path(g, seq![root]));
        assert(seq![root][0] == root && seq![root].last() == root);
        assert(worklist@[0] == root);
        assert forall|x: AbstractValue| #[trigger] worklist@.contains(x) implies heap_reaches(
            g,
            root,
            x,
        ) by {
            assert(x == root);
        }
    }
    while worklist.len() > 0
        invariant
            g == heap@.graph,
            visited@.contains(root) || worklist@.contains(root),
            forall|x: AbstractValue| #[trigger] visited@.contains(x) ==> heap_reaches(g, root, x),
            forall|x: AbstractValue| #[trigger] worklist@.contains(x) ==> heap_reaches(g, root, x),
            forall|a: AbstractValue, b: AbstractValue|
                visited@.contains(a) && #[trigger] points_to(g, a, b) ==> visited@.contains(b)
                    || worklist@.contains(b),
        decreases 0x1_0000_0000_0000_0000 - visited@.len(), worklist@.len(),
    {
        let ghost w0 = worklist@;
        let ghost s0 = visited@;
        let n: usize = visited.len();
        let addr = worklist.pop().unwrap();
        let ghost w1 = worklist@;
        assert(w0[w0.len() - 1] == addr);
        assert(w0.contains(addr));
        assert forall|x: AbstractValue| w1.contains(x) implies w0.contains(x) by {
            let i = choose|i: int| 0 <= i < w1.len() && w1[i] == x;
            assert(w0[i] == x);
        }
        assert forall|x: AbstractValue| #[trigger] w0.contains(x) implies w1.contains(x) || x
            == addr by {
            let i = choose|i: int| 0 <= i < w0.len() && w0[i] == x;
            if i < w1.len() {
                assert(w1[i] == x);
            }
        }
        if visited.contains(&addr) {
            continue;
        }
        visited.insert(addr);
        let n1: usize = visited.len();
        proof {
            lemma_set_put_len(s0, addr);
            lemma_set_len(visited@);
            assert forall|x: AbstractValue| #[trigger] visited@.contains(x) <==> s0.contains(x) || x
                == addr by {
                lemma_set_put_contains::<AbstractValue>(s0, addr, x);
            }
        }
        if let Some(edges) = heap.get_edges(addr) {
            let ghost e = edges@;
            let mut i: usize = 0;
            while i < edges.len()
                invariant
                    g == heap@.graph,
                    e == edges@,
                    lookup(g, addr) == Some(e),
                    heap_reaches(g, root, addr),
                    i <= e.values.len(),
                    forall|x: AbstractValue| w1.contains(x) ==> worklist@.contains(x),
                    forall|x: AbstractValue| #[trigger]
                        worklist@.contains(x) ==> heap_reaches(g, root, x),
                    forall|j: int|
                        0 <= j < i ==> worklist@.contains((#[trigger] e.values[j]).1.value.addr),
                decreases e.values.len() - i,
            {
                let target = edges.value_at(i).addr;
                let ghost w = worklist@;
                worklist.push(target);
                proof {
                    assert(e.values[i as int].1.value.addr == target);
                    assert(points_to(g, addr, target));
                    lemma_path_extend(g, root, addr, target);
                    assert(worklist@[w.len() as int] == target);
                    assert forall|x: AbstractValue| w.contains(x) implies worklist@.contains(x) by {
                        let k = choose|k: int| 0 <= k < w.len() && w[k] == x;
                        assert(worklist@[k] == x);
                    }
                    assert forall|x: AbstractValue| #[trigger]
                        worklist@.contains(x) implies heap_reaches(g, root, x) by {
                        let k = choose|k: int| 0 <= k < worklist@.len() && worklist@[k] == x;
                        if k < w.len() {
                            assert(w[k] == x);
                            assert(w.contains(x));
                        }
                    }
                }
                i = i + 1;
            }
        }
        proof {
            assert forall|a: AbstractValue, b: AbstractValue|
                visited@.contains(a) && #[trigger] points_to(g, a, b) implies visited@.contains(b)
                || worklist@.contains(b) by {
                if a == addr {
                    let e = lookup(g, a)->0;
                    let i = choose|i: int|
                        0 <= i < e.values.len() && (#[trigger] e.values[i]).1.value.addr == b;
                    assert(worklist@.contains(e.values[i].1.value.addr));
                } else {
                    assert(s0.contains(a));
                }
            }
        }
    }
    let n: usize = visited.len();
    proof {
        let s = visited@;
        assert forall|x: AbstractValue| heap_reaches(g, root, x) implies #[trigger] s.contains(
            x,
        ) by {
            let p = choose|p: Seq<AbstractValue>| #[trigger]
                is_heap_path(g, p) && p[0] == root && p.last() == x;
            lemma_closed_holds(g, s, p);
        }
        assert(is_reachable_set(g, root, s));
        lemma_same_set(s, reachable_set(g, root));
    }
    visited
}

} // verus!
