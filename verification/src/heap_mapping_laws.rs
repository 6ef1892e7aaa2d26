//! Mapping the values of a heap: what it changes, and that searching for the first
//! change beforehand makes no difference.

use crate::abstract_value::AbstractValue;
use crate::heap_model::{
    first_moved, first_moved_in, mapped_after, mapped_memory, moves_access, EdgeEntry, EdgesV,
    MemoryV, ValueFn,
};
use crate::key::KeyV;
use vstd::prelude::*;

verus! {

/// The mapping changes neither an index nor a target of the edges.
pub open spec fn edges_stay(s: Seq<(KeyV, EdgeEntry)>, m: ValueFn) -> bool {
    forall|i: int|
        0 <= i < s.len() ==> !moves_access(m, (#[trigger] s[i]).1.access) && m(s[i].1.value.addr)
            == s[i].1.value.addr
}

/// The mapping changes no source, index or target.
pub open spec fn memory_stays(g: Seq<(AbstractValue, EdgesV)>, m: ValueFn) -> bool {
    forall|i: int|
        0 <= i < g.len() ==> m((#[trigger] g[i]).0) == g[i].0 && edges_stay(g[i].1.values, m)
}

proof fn lemma_first_moved(s: Seq<(KeyV, EdgeEntry)>, m: ValueFn)
    ensures
        first_moved(s, m) is None <==> edges_stay(s, m),
    decreases s.len(),
{
    if s.len() > 0 {
        let rest = s.drop_first();
        lemma_first_moved(rest, m);
        if edges_stay(s, m) {
            assert(!moves_access(m, s[0].1.access) && m(s[0].1.value.addr) == s[0].1.value.addr);
            assert forall|i: int| 0 <= i < rest.len() implies !moves_access(
                m,
                (#[trigger] rest[i]).1.access,
            ) && m(rest[i].1.value.addr) == rest[i].1.value.addr by {
                assert(rest[i] == s[i + 1]);
            }
        } else if first_moved(s, m) is None {
            assert forall|i: int| 0 <= i < s.len() implies !moves_access(
                m,
                (#[trigger] s[i]).1.access,
            ) && m(s[i].1.value.addr) == s[i].1.value.addr by {
                if i > 0 {
                    assert(s[i] == rest[i - 1]);
                }
            }
        }
    }
}

proof fn lemma_first_moved_in(g: Seq<(AbstractValue, EdgesV)>, m: ValueFn)
    ensures
        first_moved_in(g, m) is None <==> memory_stays(g, m),
    decreases g.len(),
{
    if g.len() > 0 {
        let rest = g.drop_first();
        lemma_first_moved_in(rest, m);
        lemma_first_moved(g[0].1.values, m);
        if memory_stays(g, m) {
            assert(m(g[0].0) == g[0].0 && edges_stay(g[0].1.values, m));
            assert forall|i: int| 0 <= i < rest.len() implies m((#[trigger] rest[i]).0)
                == rest[i].0 && edges_stay(rest[i].1.values, m) by {
                assert(rest[i] == g[i + 1]);
            }
        } else if first_moved_in(g, m) is None {
            assert forall|i: int| 0 <= i < g.len() implies m((#[trigger] g[i]).0) == g[i].0
                && edges_stay(g[i].1.values, m) by {
                if i > 0 {
                    assert(g[i] == rest[i - 1]);
                }
            }
        }
    }
}

/// Mapping a heap reports no change exactly when the mapping moves no source, index or
/// target, and then the heap is as before.
pub proof fn law_mapping_reports_changes(h: MemoryV, m: ValueFn)
    ensures
        mapped_memory(h, m).1 <==> !memory_stays(h.graph, m),
        !mapped_memory(h, m).1 ==> mapped_memory(h, m).0 == h,
{
    lemma_first_moved_in(h.graph, m);
}

/// Mapping a heap, and mapping it with the first change that was found before, leave the
/// same heap and report the same.
pub proof fn law_mapping_after_search_agrees(h: MemoryV, m: ValueFn)
    ensures
        mapped_after(h, first_moved_in(h.graph, m), m) == mapped_memory(h, m),
        mapped_after(h, None, m) == mapped_memory(h, m),
{
}

} // verus!
