//! What the operations of the heap graph compute.
//!
//! The edges of an address are bindings from accesses to values, found by
//! [`Access::order`]. Two lists of accesses remember how recently a binding
//! was made: `new_keys` holds the current batch, newest first, `old_keys` the
//! batch before it. When a batch is full, bindings in neither list are
//! forgotten.

use crate::abstract_value::AbstractValue;
use crate::access::{renamed_access, Access};
use crate::key::{Key, KeyV, Keyed};
use crate::ordered::{del, lookup, put};
use crate::value_history::ValueWithHistory;
use vstd::prelude::*;

verus! {

/// A binding of an access.
#[derive(Debug, PartialEq, Eq)]
pub struct EdgeEntry {
    pub access: Access,
    pub value: ValueWithHistory,
}

/// An access and the value behind it.
pub type Binding = (Access, ValueWithHistory);

/// The outgoing edges of an address.
#[verifier::ext_equal]
pub struct EdgesV {
    /// How many bindings a batch holds, if their number is bounded.
    pub limit: Option<usize>,
    pub new_keys: Seq<Access>,
    pub old_keys: Seq<Access>,
    pub values: Seq<(KeyV, EdgeEntry)>,
}

/// A function from values to values.
pub type ValueFn = spec_fn(AbstractValue) -> AbstractValue;

/// The function that replaces `old` by `new`.
pub open spec fn subst_fn(old: AbstractValue, new: AbstractValue) -> ValueFn {
    |v: AbstractValue|
        if v == old {
            new
        } else {
            v
        }
}

/// A batch holds at least one binding.
pub open spec fn batch_size(limit: usize) -> nat {
    if limit == 0 {
        1
    } else {
        limit as nat
    }
}

/// No edges.
pub open spec fn no_edges(limit: Option<usize>) -> EdgesV {
    EdgesV { limit, new_keys: seq![], old_keys: seq![], values: seq![] }
}

/// `a` is one of `keys`.
pub open spec fn listed(keys: Seq<Access>, a: Access) -> bool {
    exists|i: int| 0 <= i < keys.len() && (#[trigger] keys[i]).key() == a.key()
}

/// `keys` without the first occurrence of `a`.
pub open spec fn without(keys: Seq<Access>, a: Access) -> Seq<Access>
    decreases keys.len(),
{
    if keys.len() == 0 {
        keys
    } else if keys[0].key() == a.key() {
        keys.drop_first()
    } else {
        seq![keys[0]] + without(keys.drop_first(), a)
    }
}

/// `values` with the binding of `a` set to `v`. A binding that is there keeps
/// its access.
pub open spec fn bind(values: Seq<(KeyV, EdgeEntry)>, a: Access, v: ValueWithHistory) -> Seq<
    (KeyV, EdgeEntry),
> {
    let access = match lookup(values, a.order()) {
        Some(entry) => entry.access,
        None => a,
    };
    put::<Key, EdgeEntry>(values, a.order(), EdgeEntry { access, value: v })
}

/// The bindings whose access is in one of the two lists.
pub open spec fn kept(
    values: Seq<(KeyV, EdgeEntry)>,
    new_keys: Seq<Access>,
    old_keys: Seq<Access>,
) -> Seq<(KeyV, EdgeEntry)> {
    values.filter(
        |e: (KeyV, EdgeEntry)| listed(new_keys, e.1.access) || listed(old_keys, e.1.access),
    )
}

/// `e` with `a` bound to `v` as the newest binding, in batches of `limit`.
pub open spec fn add_limited(e: EdgesV, a: Access, v: ValueWithHistory, limit: usize) -> EdgesV {
    let new_keys = without(e.new_keys, a);
    let values = bind(e.values, a, v);
    if new_keys.len() + 1 > batch_size(limit) {
        EdgesV {
            limit: e.limit,
            new_keys: seq![a],
            old_keys: new_keys,
            values: kept(values, seq![a], new_keys),
        }
    } else {
        EdgesV {
            limit: e.limit,
            new_keys: seq![a] + new_keys,
            old_keys: without(e.old_keys, a),
            values,
        }
    }
}

/// `e` with `a` bound to `v`.
pub open spec fn add_edge(e: EdgesV, a: Access, v: ValueWithHistory) -> EdgesV {
    match e.limit {
        None => EdgesV { values: bind(e.values, a, v), ..e },
        Some(limit) => add_limited(e, a, v, limit),
    }
}

/// `e` without the binding of `a`.
pub open spec fn remove_edge(e: EdgesV, a: Access) -> EdgesV {
    EdgesV {
        limit: e.limit,
        new_keys: without(e.new_keys, a),
        old_keys: without(e.old_keys, a),
        values: del(e.values, a.order()),
    }
}

/// The value bound to `a`.
pub open spec fn find_edge(e: EdgesV, a: Access) -> Option<ValueWithHistory> {
    match lookup(e.values, a.order()) {
        Some(entry) => Some(entry.value),
        None => None,
    }
}

/// The binding of `k`, if there is one and `k` is not in `skip`.
pub open spec fn bound_here(values: Seq<(KeyV, EdgeEntry)>, k: Access, skip: Seq<Access>) -> Seq<
    Binding,
> {
    match lookup(values, k.order()) {
        Some(entry) => if listed(skip, k) {
            seq![]
        } else {
            seq![(k, entry.value)]
        },
        None => seq![],
    }
}

/// The bindings of the accesses in `keys` that are not in `skip`.
pub open spec fn bound(values: Seq<(KeyV, EdgeEntry)>, keys: Seq<Access>, skip: Seq<Access>) -> Seq<
    Binding,
>
    decreases keys.len(),
{
    if keys.len() == 0 {
        seq![]
    } else {
        bound_here(values, keys[0], skip) + bound(values, keys.drop_first(), skip)
    }
}

/// All bindings, in the order of accesses.
pub open spec fn all_bindings(values: Seq<(KeyV, EdgeEntry)>) -> Seq<Binding> {
    Seq::new(values.len(), |i: int| (values[i].1.access, values[i].1.value))
}

/// The bindings that are remembered, newest first; all of them when there is no
/// record of when they were made.
pub open spec fn recency(e: EdgesV) -> Seq<Binding> {
    if e.new_keys.len() == 0 && e.old_keys.len() == 0 {
        all_bindings(e.values)
    } else {
        bound(e.values, e.new_keys, seq![]) + bound(e.values, e.old_keys, e.new_keys)
    }
}

/// The edges that hold `bindings`, given newest first, made in batches of `size`.
pub open spec fn rebuilt(bindings: Seq<Binding>, limit: Option<usize>, size: usize) -> EdgesV
    decreases bindings.len(),
{
    if bindings.len() == 0 {
        no_edges(limit)
    } else {
        add_limited(
            rebuilt(bindings.drop_first(), limit, size),
            bindings[0].0,
            bindings[0].1,
            size,
        )
    }
}

/// `bindings` in the order of accesses; of two with the same order the later one.
pub open spec fn collected(bindings: Seq<Binding>) -> Seq<(KeyV, EdgeEntry)>
    decreases bindings.len(),
{
    if bindings.len() == 0 {
        seq![]
    } else {
        let b = bindings.last();
        put::<Key, EdgeEntry>(
            collected(bindings.drop_last()),
            b.0.order(),
            EdgeEntry { access: b.0, value: b.1 },
        )
    }
}

/// The edges that hold `bindings`, given newest first.
pub open spec fn edges_of(bindings: Seq<Binding>, limit: Option<usize>) -> EdgesV {
    match limit {
        Some(size) => rebuilt(bindings, limit, size),
        None => EdgesV {
            limit,
            new_keys: seq![],
            old_keys: seq![],
            values: collected(bindings),
        },
    }
}

/// The image of a value.
pub open spec fn renamed_value(m: ValueFn, v: ValueWithHistory) -> ValueWithHistory {
    ValueWithHistory { addr: m(v.addr), history: v.history }
}

/// The image of a binding.
pub open spec fn renamed_binding(m: ValueFn, b: Binding) -> Binding {
    (renamed_access(m, b.0), renamed_value(m, b.1))
}

/// The images of bindings.
pub open spec fn renamed_bindings(m: ValueFn, s: Seq<Binding>) -> Seq<Binding> {
    Seq::new(s.len(), |i: int| renamed_binding(m, s[i]))
}

/// `e` with `old` replaced by `new`.
pub open spec fn subst_edges(e: EdgesV, old: AbstractValue, new: AbstractValue) -> EdgesV {
    edges_of(renamed_bindings(subst_fn(old, new), recency(e)), e.limit)
}

/// `m` changes the index of `a`.
pub open spec fn moves_access(m: ValueFn, a: Access) -> bool {
    a matches Access::ArrayAccess(_, index) && m(index) != index
}

/// `m` changes the index of some binding.
pub open spec fn moves_some_access(m: ValueFn, s: Seq<Binding>) -> bool {
    exists|i: int| 0 <= i < s.len() && moves_access(m, (#[trigger] s[i]).0)
}

/// `m` changes the target of some binding.
pub open spec fn moves_some_target(m: ValueFn, s: Seq<Binding>) -> bool {
    exists|i: int| 0 <= i < s.len() && m((#[trigger] s[i]).1.addr) != s[i].1.addr
}

/// Some binding is found under `k`.
pub open spec fn found_under(s: Seq<Binding>, k: KeyV) -> bool {
    exists|i: int| 0 <= i < s.len() && (#[trigger] s[i]).0.order() == k
}

/// `values` with the targets of the bindings in `s` replaced by their images.
pub open spec fn retargeted(values: Seq<(KeyV, EdgeEntry)>, s: Seq<Binding>, m: ValueFn) -> Seq<
    (KeyV, EdgeEntry),
> {
    Seq::new(
        values.len(),
        |i: int|
            (
                values[i].0,
                if found_under(s, values[i].0) {
                    EdgeEntry {
                        access: values[i].1.access,
                        value: renamed_value(m, values[i].1.value),
                    }
                } else {
                    values[i].1
                },
            ),
    )
}

/// The image of `e`, if `m` changes one of its remembered bindings. A change of
/// targets alone leaves the record of recency as it is.
pub open spec fn mapped_edges(e: EdgesV, m: ValueFn) -> Option<EdgesV> {
    let s = recency(e);
    if moves_some_access(m, s) {
        Some(edges_of(renamed_bindings(m, s), e.limit))
    } else if moves_some_target(m, s) {
        Some(EdgesV { values: retargeted(e.values, s, m), ..e })
    } else {
        None
    }
}

/// The first value among the indices and targets of `s` that `m` changes, with
/// its image.
pub open spec fn first_moved(s: Seq<(KeyV, EdgeEntry)>, m: ValueFn) -> Option<
    (AbstractValue, AbstractValue),
>
    decreases s.len(),
{
    if s.len() == 0 {
        None
    } else if moves_access(m, s[0].1.access) {
        let index = s[0].1.access->ArrayAccess_1;
        Some((index, m(index)))
    } else if m(s[0].1.value.addr) != s[0].1.value.addr {
        Some((s[0].1.value.addr, m(s[0].1.value.addr)))
    } else {
        first_moved(s.drop_first(), m)
    }
}

/// The first element of `s` whose access has the same image as `a`.
pub open spec fn first_canonical(s: Seq<(KeyV, EdgeEntry)>, a: Access, m: ValueFn) -> Option<
    ValueWithHistory,
>
    decreases s.len(),
{
    if s.len() == 0 {
        None
    } else if renamed_access(m, s[0].1.access).key() == renamed_access(m, a).key() {
        Some(s[0].1.value)
    } else {
        first_canonical(s.drop_first(), a, m)
    }
}

/// The value bound to `a`, or for an array element the first one whose index has
/// the same image.
pub open spec fn find_canonical(e: EdgesV, a: Access, m: ValueFn) -> Option<ValueWithHistory> {
    match find_edge(e, a) {
        Some(v) => Some(v),
        None => if a is ArrayAccess {
            first_canonical(e.values, a, m)
        } else {
            None
        },
    }
}

/// The accesses of `s`, last to first.
pub open spec fn accesses_reversed(s: Seq<Binding>) -> Seq<Access> {
    Seq::new(s.len(), |i: int| s[s.len() - 1 - i].0)
}

/// How far `tail` has been moved into a batch: what was taken and what is left.
pub struct Spill {
    pub take: Seq<Access>,
    pub rest: Seq<Access>,
}

/// Distributes `tail` over a batch that starts with `head` and holds at most
/// `size` accesses: those not there yet are taken while there is room, and what
/// comes after that is left.
pub open spec fn spilled(
    head: Seq<Access>,
    count: nat,
    take: Seq<Access>,
    rest: Seq<Access>,
    tail: Seq<Access>,
    size: nat,
) -> Spill
    decreases tail.len(),
{
    if tail.len() == 0 {
        Spill { take, rest }
    } else if count + take.len() >= size {
        spilled(head, count, take, rest.push(tail[0]), tail.drop_first(), size)
    } else if listed(head, tail[0]) || listed(take, tail[0]) {
        spilled(head, count, take, rest, tail.drop_first(), size)
    } else {
        spilled(head, count, take.push(tail[0]), rest, tail.drop_first(), size)
    }
}

/// A batch filled up from `tail`: the batch and what is left over.
pub open spec fn filled(head: Seq<Access>, tail: Seq<Access>, size: nat) -> (
    Seq<Access>,
    Seq<Access>,
) {
    if head.len() == 0 {
        (tail, seq![])
    } else if head.len() == size {
        (head, tail)
    } else {
        let s = spilled(head, head.len(), seq![], seq![], tail, size);
        (head + s.take, s.rest)
    }
}

/// The two batches of a union, from the accesses of the left operand, oldest
/// first, and the batches of the right operand.
pub open spec fn union_batches(
    left: Seq<Access>,
    right_new: Seq<Access>,
    right_old: Seq<Access>,
    size: nat,
) -> (Seq<Access>, Seq<Access>) {
    let first: (Seq<Access>, Seq<Access>) = if left.len() <= size {
        (left, seq![])
    } else {
        (left.take(size as int), left.skip(size as int))
    };
    let second = if first.0.len() < size {
        filled(first.0, right_new, size)
    } else {
        first
    };
    if second.0.len() < size {
        filled(second.0, right_old, size)
    } else {
        second
    }
}

/// The bindings of `keys` in `a`, else in `b`.
pub open spec fn union_values(keys: Seq<Access>, a: EdgesV, b: EdgesV) -> Seq<(KeyV, EdgeEntry)>
    decreases keys.len(),
{
    if keys.len() == 0 {
        seq![]
    } else {
        let rest = union_values(keys.drop_last(), a, b);
        let k = keys.last();
        match find_edge(a, k) {
            Some(v) => bind(rest, k, v),
            None => match find_edge(b, k) {
                Some(v) => bind(rest, k, v),
                None => rest,
            },
        }
    }
}

/// `b` overridden by the bindings `s`.
pub open spec fn overridden(b: Seq<(KeyV, EdgeEntry)>, s: Seq<(KeyV, EdgeEntry)>) -> Seq<
    (KeyV, EdgeEntry),
>
    decreases s.len(),
{
    if s.len() == 0 {
        b
    } else {
        bind(overridden(b, s.drop_last()), s.last().1.access, s.last().1.value)
    }
}

/// The union of two sets of edges in which `a` wins where both bind an access.
pub open spec fn union_left(a: EdgesV, b: EdgesV) -> EdgesV {
    match a.limit {
        None => EdgesV {
            limit: a.limit,
            new_keys: seq![],
            old_keys: seq![],
            values: overridden(b.values, a.values),
        },
        Some(limit) => {
            let batches = union_batches(
                accesses_reversed(recency(a)),
                b.new_keys,
                b.old_keys,
                batch_size(limit),
            );
            EdgesV {
                limit: a.limit,
                new_keys: batches.0,
                old_keys: batches.1,
                values: union_values(batches.0 + batches.1, a, b),
            }
        },
    }
}

/// The heap graph.
#[verifier::ext_equal]
pub struct MemoryV {
    /// The limit that new edges are made with.
    pub limit: Option<usize>,
    pub graph: Seq<(AbstractValue, EdgesV)>,
}

/// The edges of `a`; none when `a` is not in the graph.
pub open spec fn edges_at(m: MemoryV, a: AbstractValue) -> EdgesV {
    match lookup(m.graph, a) {
        Some(e) => e,
        None => no_edges(m.limit),
    }
}

/// `m` with the edges of `a` set to `e`.
pub open spec fn with_edges(m: MemoryV, a: AbstractValue, e: EdgesV) -> MemoryV {
    MemoryV { graph: put::<AbstractValue, EdgesV>(m.graph, a, e), ..m }
}

/// `m` without `a`.
pub open spec fn without_address(m: MemoryV, a: AbstractValue) -> MemoryV {
    MemoryV { graph: del(m.graph, a), ..m }
}

/// `m` with the edge from `src` along `access` set to `v`.
pub open spec fn memory_add(
    m: MemoryV,
    src: AbstractValue,
    access: Access,
    v: ValueWithHistory,
) -> MemoryV {
    with_edges(m, src, add_edge(edges_at(m, src), access, v))
}

/// `m` with an entry for `a`.
pub open spec fn memory_register(m: MemoryV, a: AbstractValue) -> MemoryV {
    if lookup(m.graph, a) is Some {
        m
    } else {
        with_edges(m, a, no_edges(m.limit))
    }
}

/// The value behind the edge from `src` along `access`.
pub open spec fn memory_find(m: MemoryV, src: AbstractValue, access: Access) -> Option<
    ValueWithHistory,
> {
    match lookup(m.graph, src) {
        Some(e) => find_edge(e, access),
        None => None,
    }
}

/// `m` with all edges of `a` replaced by `e`.
pub open spec fn memory_set(m: MemoryV, a: AbstractValue, e: EdgesV) -> MemoryV {
    if e.values.len() == 0 {
        without_address(m, a)
    } else {
        with_edges(m, a, e)
    }
}

/// The addresses in `keep` that have edges.
pub open spec fn memory_retain(m: MemoryV, keep: Seq<AbstractValue>) -> MemoryV {
    MemoryV {
        graph: m.graph.filter(
            |e: (AbstractValue, EdgesV)| keep.contains(e.0) && e.1.values.len() > 0,
        ),
        ..m
    }
}

/// `v` is the index of `a`.
pub open spec fn indexed_by(a: Access, v: AbstractValue) -> bool {
    a matches Access::ArrayAccess(_, index) && index == v
}

/// `v` is the index or the target of an edge of `e`.
pub open spec fn edges_mention(e: EdgesV, v: AbstractValue) -> bool {
    exists|i: int|
        0 <= i < e.values.len() && ((#[trigger] e.values[i]).1.value.addr == v || indexed_by(
            e.values[i].1.access,
            v,
        ))
}

/// `v` is the index or the target of some edge.
pub open spec fn graph_mentions(g: Seq<(AbstractValue, EdgesV)>, v: AbstractValue) -> bool {
    exists|i: int| 0 <= i < g.len() && edges_mention((#[trigger] g[i]).1, v)
}

/// `g` with `old` replaced by `new` in all edges.
pub open spec fn subst_graph(
    g: Seq<(AbstractValue, EdgesV)>,
    old: AbstractValue,
    new: AbstractValue,
) -> Seq<(AbstractValue, EdgesV)> {
    Seq::new(g.len(), |i: int| (g[i].0, subst_edges(g[i].1, old, new)))
}

/// `e` with the bindings of `s` added in their order.
pub open spec fn add_all(e: EdgesV, s: Seq<(KeyV, EdgeEntry)>) -> EdgesV
    decreases s.len(),
{
    if s.len() == 0 {
        e
    } else {
        add_edge(add_all(e, s.drop_last()), s.last().1.access, s.last().1.value)
    }
}

/// `old` occurs in `m` as an address, an index or a target.
pub open spec fn memory_mentions(m: MemoryV, old: AbstractValue) -> bool {
    graph_mentions(m.graph, old) || lookup(m.graph, old) is Some
}

/// `m` with `old` replaced by `new`; the edges of `old` are added to those of
/// `new`.
pub open spec fn memory_subst(m: MemoryV, old: AbstractValue, new: AbstractValue) -> MemoryV {
    if !memory_mentions(m, old) {
        m
    } else {
        let m1 = MemoryV { graph: subst_graph(m.graph, old, new), ..m };
        match lookup(m1.graph, old) {
            None => m1,
            Some(e) => {
                let m2 = without_address(m1, old);
                with_edges(m2, new, add_all(edges_at(m2, new), e.values))
            },
        }
    }
}

/// `m` with `old` replaced by `new`, and whether that is possible: it is not when
/// both have edges, since then two addresses taken to be distinct would be one.
pub open spec fn memory_subst_or_unsat(
    m: MemoryV,
    old: AbstractValue,
    new: AbstractValue,
) -> (MemoryV, bool) {
    if !memory_mentions(m, old) {
        (m, true)
    } else {
        let m1 = MemoryV { graph: subst_graph(m.graph, old, new), ..m };
        match lookup(m1.graph, old) {
            None => (m1, true),
            Some(e) => {
                let m2 = without_address(m1, old);
                let taken = lookup(m2.graph, new) matches Some(x) && x.values.len() > 0;
                if e.values.len() == 0 {
                    (m2, true)
                } else if taken {
                    (with_edges(m2, old, e), false)
                } else {
                    (with_edges(m2, new, e), true)
                }
            },
        }
    }
}

/// The image of `e`; `e` itself when nothing that is remembered changes.
pub open spec fn renamed_edges(e: EdgesV, m: ValueFn) -> EdgesV {
    if first_moved(e.values, m) is Some {
        match mapped_edges(e, m) {
            Some(x) => x,
            None => e,
        }
    } else {
        e
    }
}

/// The image of a graph; of two addresses with the same image the later one stays.
pub open spec fn renamed_graph(g: Seq<(AbstractValue, EdgesV)>, m: ValueFn) -> Seq<
    (AbstractValue, EdgesV),
>
    decreases g.len(),
{
    if g.len() == 0 {
        seq![]
    } else {
        put::<AbstractValue, EdgesV>(
            renamed_graph(g.drop_last(), m),
            m(g.last().0),
            renamed_edges(g.last().1, m),
        )
    }
}

/// The first address, index or target that `m` changes, with its image.
pub open spec fn first_moved_in(g: Seq<(AbstractValue, EdgesV)>, m: ValueFn) -> Option<
    (AbstractValue, AbstractValue),
>
    decreases g.len(),
{
    if g.len() == 0 {
        None
    } else if m(g[0].0) != g[0].0 {
        Some((g[0].0, m(g[0].0)))
    } else if first_moved(g[0].1.values, m) is Some {
        first_moved(g[0].1.values, m)
    } else {
        first_moved_in(g.drop_first(), m)
    }
}

/// The image of a heap; the heap itself when nothing changes.
pub open spec fn renamed_memory(h: MemoryV, m: ValueFn) -> MemoryV {
    if first_moved_in(h.graph, m) is Some {
        MemoryV { graph: renamed_graph(h.graph, m), ..h }
    } else {
        h
    }
}

/// The image of a heap, and whether something changes.
pub open spec fn mapped_memory(h: MemoryV, m: ValueFn) -> (MemoryV, bool) {
    (renamed_memory(h, m), first_moved_in(h.graph, m) is Some)
}

/// The image of a heap of which a first change may be known: with one, the heap is not
/// searched.
pub open spec fn mapped_after(
    h: MemoryV,
    change: Option<(AbstractValue, AbstractValue)>,
    m: ValueFn,
) -> (MemoryV, bool) {
    if change is None && first_moved_in(h.graph, m) is None {
        (h, false)
    } else {
        (MemoryV { graph: renamed_graph(h.graph, m), ..h }, true)
    }
}

/// The edges `s` of `a` as text.
pub open spec fn edges_text(a: AbstractValue, s: Seq<(KeyV, EdgeEntry)>) -> Seq<char>
    decreases s.len(),
{
    if s.len() == 0 {
        seq![]
    } else {
        edges_text(a, s.drop_last()) + a.text() + " -"@ + s.last().1.access.text() + "-> "@
            + s.last().1.value.addr.text() + "; "@
    }
}

/// A graph as text.
pub open spec fn graph_text(g: Seq<(AbstractValue, EdgesV)>) -> Seq<char>
    decreases g.len(),
{
    if g.len() == 0 {
        seq![]
    } else {
        graph_text(g.drop_last()) + edges_text(g.last().0, g.last().1.values)
    }
}

} // verus!
