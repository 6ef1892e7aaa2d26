//! Heap domain: the abstract memory graph.
//!
//! The heap is a graph: `AbstractValue -> Edges`, where each edge is
//! `Access -> (AbstractValue, History)`. This represents "address A has
//! field F pointing to address B".

use crate::abstract_value::AbstractValue;
use crate::access::{renamed_access, Access};
use crate::formula::lin_arith::{is_mapping, mapping};
use crate::formula::resolve::ValueSet;
use crate::heap_model::{
    accesses_reversed, add_all, add_edge, add_limited, all_bindings, batch_size, bind, bound,
    bound_here, collected, edges_at, edges_mention, edges_of, edges_text, filled, find_canonical,
    find_edge, first_canonical, first_moved, first_moved_in, found_under, graph_text, indexed_by,
    listed, mapped_after, mapped_edges, mapped_memory, memory_add, memory_find, memory_mentions,
    memory_register, memory_retain, memory_set, memory_subst, memory_subst_or_unsat, moves_access,
    moves_some_access, moves_some_target, no_edges, overridden, rebuilt, recency, remove_edge,
    renamed_binding, renamed_bindings, renamed_graph, retargeted, spilled, subst_edges, subst_fn,
    subst_graph, union_batches, union_left, union_values, without, without_address, Binding,
    EdgeEntry, EdgesV, MemoryV, ValueFn,
};
use crate::key::{same_key, Key, KeyV, Keyed};
use crate::ordered::{
    lemma_del_absent, lemma_lookup_has_key, lookup, sorted, Comparison, Dup, OrdKey, OrdMap,
    Selector,
};
use crate::sat_unsat::SatUnsat;
use crate::value_history::{ValueHistory, ValueWithHistory};
use vstd::prelude::*;

verus! {

impl Clone for EdgeEntry {
    fn clone(&self) -> (r: Self)
        ensures
            r == *self,
    {
        EdgeEntry { access: self.access.clone(), value: self.value.clone() }
    }
}

impl View for EdgeEntry {
    type V = EdgeEntry;

    open spec fn view(&self) -> EdgeEntry {
        *self
    }
}

impl Dup for EdgeEntry {
    fn dup(&self) -> (r: Self) {
        self.clone()
    }
}

/// A function on abstract values that can be computed.
pub trait Renaming {
    /// The function can be called.
    spec fn ready(&self) -> bool;

    spec fn image(&self, v: AbstractValue) -> AbstractValue;

    fn apply(&self, v: AbstractValue) -> (r: AbstractValue)
        requires
            self.ready(),
        ensures
            r == self.image(v),
    ;
}

/// The function that `r` computes.
pub open spec fn image_fn<R: Renaming>(r: R) -> ValueFn {
    |v: AbstractValue| r.image(v)
}

/// The renaming given by a closure.
pub struct ByFn<F: Fn(AbstractValue) -> AbstractValue>(pub F);

impl<F: Fn(AbstractValue) -> AbstractValue> Renaming for ByFn<F> {
    open spec fn ready(&self) -> bool {
        is_mapping(self.0)
    }

    open spec fn image(&self, v: AbstractValue) -> AbstractValue {
        mapping(self.0)(v)
    }

    fn apply(&self, v: AbstractValue) -> (r: AbstractValue) {
        (self.0)(v)
    }
}

proof fn lemma_by_fn<F: Fn(AbstractValue) -> AbstractValue>(f: F)
    ensures
        image_fn(ByFn(f)) == mapping(f),
{
    assert(image_fn(ByFn(f)) =~= mapping(f));
}

/// The renaming that replaces one value by another.
pub struct Subst {
    pub old: AbstractValue,
    pub new: AbstractValue,
}

impl Renaming for Subst {
    open spec fn ready(&self) -> bool {
        true
    }

    open spec fn image(&self, v: AbstractValue) -> AbstractValue {
        if v == self.old {
            self.new
        } else {
            v
        }
    }

    fn apply(&self, v: AbstractValue) -> (r: AbstractValue) {
        if v == self.old {
            self.new
        } else {
            v
        }
    }
}

proof fn lemma_subst(s: Subst)
    ensures
        image_fn(s) == subst_fn(s.old, s.new),
{
    assert(image_fn(s) =~= subst_fn(s.old, s.new));
}

fn rename_access<R: Renaming>(a: &Access, r: &R) -> (out: Access)
    requires
        r.ready(),
    ensures
        out == renamed_access(image_fn(*r), *a),
{
    match a {
        Access::ArrayAccess(typ, index) => Access::ArrayAccess(typ.clone(), r.apply(*index)),
        Access::FieldAccess(_) | Access::Dereference => a.clone(),
    }
}

fn access_moves<R: Renaming>(a: &Access, r: &R) -> (b: bool)
    requires
        r.ready(),
    ensures
        b == moves_access(image_fn(*r), *a),
{
    match a {
        Access::ArrayAccess(_, index) => r.apply(*index) != *index,
        Access::FieldAccess(_) | Access::Dereference => false,
    }
}

fn is_listed(keys: &Vec<Access>, a: &Access) -> (b: bool)
    ensures
        b == listed(keys@, *a),
{
    let mut i: usize = 0;
    while i < keys.len()
        invariant
            i <= keys@.len(),
            forall|j: int| 0 <= j < i ==> (#[trigger] keys@[j]).key() != a.key(),
        decreases keys@.len() - i,
    {
        if same_key(&keys[i], a) {
            return true;
        }
        i = i + 1;
    }
    false
}

proof fn lemma_without_at(keys: Seq<Access>, a: Access, i: int)
    requires
        0 <= i < keys.len(),
        keys[i].key() == a.key(),
        forall|j: int| 0 <= j < i ==> (#[trigger] keys[j]).key() != a.key(),
    ensures
        without(keys, a) == keys.remove(i),
    decreases i,
{
    if i == 0 {
        assert(keys.remove(0) =~= keys.drop_first());
    } else {
        assert(keys[0].key() != a.key());
        let rest = keys.drop_first();
        assert forall|j: int| 0 <= j < i - 1 implies (#[trigger] rest[j]).key() != a.key() by {
            assert(rest[j] == keys[j + 1]);
        }
        lemma_without_at(rest, a, i - 1);
        assert(seq![keys[0]] + rest.remove(i - 1) =~= keys.remove(i));
    }
}

proof fn lemma_without_absent(keys: Seq<Access>, a: Access)
    requires
        !listed(keys, a),
    ensures
        without(keys, a) == keys,
    decreases keys.len(),
{
    if keys.len() > 0 {
        assert(keys[0].key() != a.key());
        let rest = keys.drop_first();
        if listed(rest, a) {
            let i = choose|i: int| 0 <= i < rest.len() && (#[trigger] rest[i]).key() == a.key();
            assert(keys[i + 1].key() == a.key());
        }
        lemma_without_absent(rest, a);
        assert(seq![keys[0]] + rest =~= keys);
    }
}

/// Removes the first occurrence of `a`; `true` when there was one.
fn remove_key(keys: &mut Vec<Access>, a: &Access) -> (b: bool)
    ensures
        final(keys)@ == without(old(keys)@, *a),
        b == listed(old(keys)@, *a),
{
    let ghost s = keys@;
    let mut i: usize = 0;
    while i < keys.len()
        invariant
            keys@ == s,
            s == old(keys)@,
            i <= keys@.len(),
            forall|j: int| 0 <= j < i ==> (#[trigger] keys@[j]).key() != a.key(),
        decreases keys@.len() - i,
    {
        if same_key(&keys[i], a) {
            proof {
                lemma_without_at(s, *a, i as int);
                assert(listed(s, *a));
            }
            keys.remove(i);
            return true;
        }
        i = i + 1;
    }
    proof {
        lemma_without_absent(s, *a);
    }
    false
}

fn clone_keys(keys: &Vec<Access>) -> (r: Vec<Access>)
    ensures
        r@ == keys@,
{
    let mut r: Vec<Access> = Vec::new();
    let mut i: usize = 0;
    while i < keys.len()
        invariant
            i <= keys@.len(),
            r@ == keys@.take(i as int),
        decreases keys@.len() - i,
    {
        r.push(keys[i].clone());
        assert(keys@.take(i + 1) =~= keys@.take(i as int).push(keys@[i as int]));
        i = i + 1;
    }
    assert(keys@.take(i as int) =~= keys@);
    r
}

struct InLists<'a> {
    new_keys: &'a Vec<Access>,
    old_keys: &'a Vec<Access>,
}

impl<'a> Selector<Key, EdgeEntry> for InLists<'a> {
    closed spec fn accepts(&self, k: KeyV, v: EdgeEntry) -> bool {
        listed(self.new_keys@, v.access) || listed(self.old_keys@, v.access)
    }

    fn test(&self, k: &Key, v: &EdgeEntry) -> (b: bool) {
        is_listed(self.new_keys, &v.access) || is_listed(self.old_keys, &v.access)
    }
}

/// Sets the binding of `access`.
fn bind_entry(values: &mut OrdMap<Key, EdgeEntry>, access: Access, value: ValueWithHistory)
    ensures
        final(values)@ == bind(old(values)@, access, value),
{
    let key = access.order_key();
    let stored = match values.get(&key) {
        Some(entry) => entry.access.clone(),
        None => access,
    };
    values.insert(key, EdgeEntry { access: stored, value });
}

/// Edges from a single heap address: maps accesses to target addresses.
///
/// The most recently modified batch is kept together with the previous batch,
/// each bounded by the limit the edges were made with.
#[derive(Debug, PartialEq, Eq)]
pub struct Edges {
    limit: Option<usize>,
    new_keys: Vec<Access>,
    old_keys: Vec<Access>,
    values: OrdMap<Key, EdgeEntry>,
}

impl View for Edges {
    type V = EdgesV;

    closed spec fn view(&self) -> EdgesV {
        EdgesV {
            limit: self.limit,
            new_keys: self.new_keys@,
            old_keys: self.old_keys@,
            values: self.values@,
        }
    }
}

impl Dup for Edges {
    fn dup(&self) -> (r: Self) {
        let r = Edges {
            limit: self.limit,
            new_keys: clone_keys(&self.new_keys),
            old_keys: clone_keys(&self.old_keys),
            values: self.values.dup(),
        };
        assert(r@ =~= self@);
        r
    }
}

impl Clone for Edges {
    fn clone(&self) -> (r: Self)
        ensures
            r@ == self@,
    {
        self.dup()
    }
}

/// How many bindings a batch holds unless configured otherwise.
pub const DEFAULT_RECENCY_LIMIT: usize = 32;

proof fn lemma_bound_step(
    values: Seq<(KeyV, EdgeEntry)>,
    keys: Seq<Access>,
    skip: Seq<Access>,
    i: int,
)
    requires
        0 <= i < keys.len(),
    ensures
        bound(values, keys.take(i + 1), skip) == bound(values, keys.take(i), skip) + bound_here(
            values,
            keys[i],
            skip,
        ),
    decreases i,
{
    let a = keys.take(i + 1);
    if i == 0 {
        assert(a.drop_first() =~= Seq::<Access>::empty());
        assert(keys.take(0) =~= Seq::<Access>::empty());
        assert(bound(values, a.drop_first(), skip) =~= Seq::<Binding>::empty());
        assert(a[0] == keys[0]);
        assert(bound(values, a, skip) =~= bound_here(values, keys[0], skip));
        assert(
            bound(values, keys.take(0), skip) + bound_here(values, keys[0], skip)
                =~= bound_here(values, keys[0], skip)
        );
    } else {
        let rest = keys.drop_first();
        lemma_bound_step(values, rest, skip, i - 1);
        assert(a.drop_first() =~= rest.take(i));
        assert(keys.take(i).drop_first() =~= rest.take(i - 1));
        assert(bound(values, keys.take(i), skip) == bound_here(values, keys[0], skip) + bound(
            values,
            rest.take(i - 1),
            skip,
        ));
        assert(
            bound(values, a, skip)
                == bound_here(values, keys[0], skip) + bound(values, rest.take(i), skip)
        );
        assert(
            bound_here(values, keys[0], skip)
                + (bound(values, rest.take(i - 1), skip) + bound_here(values, keys[i], skip))
                =~= bound_here(values, keys[0], skip)
                    + bound(values, rest.take(i - 1), skip)
                    + bound_here(values, keys[i], skip)
        );
    }
}

impl Edges {
    pub fn empty() -> (r: Self)
        ensures
            r@ == no_edges(Some(DEFAULT_RECENCY_LIMIT)),
    {
        Self::with_limit(Some(DEFAULT_RECENCY_LIMIT))
    }

    /// How many bindings a batch holds, if their number is bounded.
    pub fn get_limit(&self) -> (r: Option<usize>)
        ensures
            r == self@.limit,
    {
        self.limit
    }

    /// The accesses of the current batch, newest first.
    pub fn get_new_keys(&self) -> (r: &Vec<Access>)
        ensures
            r@ == self@.new_keys,
    {
        &self.new_keys
    }

    /// The accesses of the batch before, newest first.
    pub fn get_old_keys(&self) -> (r: &Vec<Access>)
        ensures
            r@ == self@.old_keys,
    {
        &self.old_keys
    }

    /// No edges, with batches bounded by `limit`.
    pub fn with_limit(limit: Option<usize>) -> (r: Self)
        ensures
            r@ == no_edges(limit),
    {
        let r = Edges {
            limit,
            new_keys: Vec::new(),
            old_keys: Vec::new(),
            values: OrdMap::new(),
        };
        assert(r@ =~= no_edges(limit));
        r
    }

    fn push_bound(&self, keys: &Vec<Access>, skip: &Vec<Access>, out: &mut Vec<Binding>)
        ensures
            final(out)@ == old(out)@ + bound(self@.values, keys@, skip@),
    {
        let ghost before = out@;
        let mut i: usize = 0;
        assert(before + bound(self@.values, keys@.take(0), skip@) =~= before);
        while i < keys.len()
            invariant
                i <= keys@.len(),
                out@ == before + bound(self@.values, keys@.take(i as int), skip@),
            decreases keys@.len() - i,
        {
            proof {
                lemma_bound_step(self@.values, keys@, skip@, i as int);
            }
            let ghost so_far = out@;
            if !is_listed(skip, &keys[i]) {
                if let Some(entry) = self.values.get(&keys[i].order_key()) {
                    out.push((keys[i].clone(), entry.value.clone()));
                }
            }
            assert(out@ =~= before + bound(self@.values, keys@.take(i + 1), skip@));
            i = i + 1;
        }
        assert(keys@.take(i as int) =~= keys@);
    }

    /// The remembered bindings, newest first.
    pub fn recency_bindings(&self) -> (r: Vec<Binding>)
        ensures
            r@ == recency(self@),
    {
        let mut out: Vec<Binding> = Vec::new();
        if self.new_keys.len() == 0 && self.old_keys.len() == 0 {
            let mut i: usize = 0;
            while i < self.values.len()
                invariant
                    i <= self.values@.len(),
                    out@ == all_bindings(self.values@).take(i as int),
                decreases self.values@.len() - i,
            {
                let entry = self.values.value_at(i);
                out.push((entry.access.clone(), entry.value.clone()));
                assert(all_bindings(self.values@).take(i + 1) =~= all_bindings(
                    self.values@,
                ).take(i as int).push(all_bindings(self.values@)[i as int]));
                i = i + 1;
            }
            assert(all_bindings(self.values@).take(i as int) =~= all_bindings(self.values@));
            return out;
        }
        let skip: Vec<Access> = Vec::new();
        self.push_bound(&self.new_keys, &skip, &mut out);
        self.push_bound(&self.old_keys, &self.new_keys, &mut out);
        proof {
            assert(skip@ =~= Seq::<Access>::empty());
            assert(Seq::<Binding>::empty() + bound(self@.values, self@.new_keys, seq![]) =~= bound(
                self@.values,
                self@.new_keys,
                seq![],
            ));
        }
        out
    }

    /// The edges that hold the bindings, given newest first, in batches of `size`.
    fn from_recency_bindings_limited(
        bindings: &Vec<Binding>,
        limit: Option<usize>,
        size: usize,
    ) -> (r: Self)
        ensures
            r@ == rebuilt(bindings@, limit, size),
    {
        let mut edges = Self::with_limit(limit);
        let mut i: usize = bindings.len();
        assert(bindings@.skip(i as int) =~= Seq::<Binding>::empty());
        while i > 0
            invariant
                i <= bindings@.len(),
                edges@ == rebuilt(bindings@.skip(i as int), limit, size),
            decreases i,
        {
            i = i - 1;
            let ghost s = bindings@.skip(i as int);
            assert(s.drop_first() =~= bindings@.skip(i + 1));
            assert(s[0] == bindings@[i as int]);
            edges.add_with_history_limited(bindings[i].0.clone(), bindings[i].1.clone(), size);
        }
        assert(bindings@.skip(0) =~= bindings@);
        edges
    }

    fn collect(bindings: &Vec<Binding>) -> (r: OrdMap<Key, EdgeEntry>)
        ensures
            r@ == collected(bindings@),
    {
        let mut values: OrdMap<Key, EdgeEntry> = OrdMap::new();
        let mut i: usize = 0;
        assert(bindings@.take(0) =~= Seq::<Binding>::empty());
        while i < bindings.len()
            invariant
                i <= bindings@.len(),
                values@ == collected(bindings@.take(i as int)),
            decreases bindings@.len() - i,
        {
            let ghost s = bindings@.take(i + 1);
            assert(s.drop_last() =~= bindings@.take(i as int));
            assert(s.last() == bindings@[i as int]);
            let b = &bindings[i];
            values.insert(
                b.0.order_key(),
                EdgeEntry { access: b.0.clone(), value: b.1.clone() },
            );
            i = i + 1;
        }
        assert(bindings@.take(i as int) =~= bindings@);
        values
    }

    fn of_bindings(bindings: &Vec<Binding>, limit: Option<usize>) -> (r: Self)
        ensures
            r@ == edges_of(bindings@, limit),
    {
        match limit {
            Some(size) => Self::from_recency_bindings_limited(bindings, limit, size),
            None => {
                let r = Edges {
                    limit,
                    new_keys: Vec::new(),
                    old_keys: Vec::new(),
                    values: Self::collect(bindings),
                };
                assert(r@ =~= edges_of(bindings@, limit));
                r
            },
        }
    }

    pub fn add(&mut self, access: Access, target: AbstractValue)
        ensures
            final(self)@ == add_edge(
                old(self)@,
                access,
                (ValueWithHistory { addr: target, history: ValueHistory::start() }),
            ),
    {
        self.add_with_history(access, ValueWithHistory::new(target, ValueHistory::epoch()));
    }

    pub fn add_with_history(&mut self, access: Access, value: ValueWithHistory)
        ensures
            final(self)@ == add_edge(old(self)@, access, value),
    {
        match self.limit {
            None => {
                bind_entry(&mut self.values, access, value);
                assert(self@ =~= add_edge(old(self)@, access, value));
            },
            Some(limit) => self.add_with_history_limited(access, value, limit),
        }
    }

    /// Binds `access` as the newest binding, in batches of `limit`.
    pub fn add_with_history_limited(
        &mut self,
        access: Access,
        value: ValueWithHistory,
        limit: usize,
    )
        ensures
            final(self)@ == add_limited(old(self)@, access, value, limit),
    {
        let size: usize = if limit == 0 {
            1
        } else {
            limit
        };
        remove_key(&mut self.old_keys, &access);
        remove_key(&mut self.new_keys, &access);
        bind_entry(&mut self.values, access.clone(), value);
        if self.new_keys.len() >= size {
            let mut fresh: Vec<Access> = Vec::new();
            fresh.push(access);
            std::mem::swap(&mut fresh, &mut self.new_keys);
            self.old_keys = fresh;
            assert(self.new_keys@ =~= seq![access]);
            let ghost values = self.values@;
            let lists = InLists { new_keys: &self.new_keys, old_keys: &self.old_keys };
            self.values.retain(&lists);
            proof {
                let p = |e: (KeyV, EdgeEntry)| lists.accepts(e.0, e.1);
                let q = |e: (KeyV, EdgeEntry)|
                    listed(self.new_keys@, e.1.access) || listed(self.old_keys@, e.1.access);
                assert(p =~= q);
            }
        } else {
            self.new_keys.insert(0, access);
            assert(self.new_keys@ =~= seq![access] + without(old(self).new_keys@, access));
        }
        assert(self@ =~= add_limited(old(self)@, access, value, limit));
    }

    pub fn remove(&mut self, access: &Access)
        ensures
            final(self)@ == remove_edge(old(self)@, *access),
    {
        self.values.remove(&access.order_key());
        remove_key(&mut self.new_keys, access);
        remove_key(&mut self.old_keys, access);
        assert(self@ =~= remove_edge(old(self)@, *access));
    }

    pub fn find(&self, access: &Access) -> (r: Option<AbstractValue>)
        ensures
            r == (match find_edge(self@, *access) {
                Some(v) => Some(v.addr),
                None => None,
            }),
    {
        match self.find_with_history(access) {
            Some(value) => Some(value.addr),
            None => None,
        }
    }

    pub fn find_with_history(&self, access: &Access) -> (r: Option<&ValueWithHistory>)
        ensures
            find_edge(self@, *access) == (match r {
                Some(v) => Some(*v),
                None => None,
            }),
    {
        match self.values.get(&access.order_key()) {
            Some(entry) => Some(&entry.value),
            None => None,
        }
    }

    /// The value behind `access`; for an array element that has no edge of its
    /// own, the value behind the first element whose index has the same
    /// representative. This lets `arr[i]` and `arr[j]` share an edge once `i`
    /// and `j` are known to be equal.
    pub fn find_with_history_canonicalized<F: Fn(AbstractValue) -> AbstractValue>(
        &self,
        access: &Access,
        get_var_repr: F,
    ) -> (r: Option<&ValueWithHistory>)
        requires
            is_mapping(get_var_repr),
        ensures
            find_canonical(self@, *access, mapping(get_var_repr)) == (match r {
                Some(v) => Some(*v),
                None => None,
            }),
    {
        let renaming = ByFn(get_var_repr);
        proof {
            lemma_by_fn(get_var_repr);
        }
        self.find_canonicalized(access, &renaming)
    }

    fn find_canonicalized<R: Renaming>(&self, access: &Access, renaming: &R) -> (r: Option<
        &ValueWithHistory,
    >)
        requires
            renaming.ready(),
        ensures
            find_canonical(self@, *access, image_fn(*renaming)) == (match r {
                Some(v) => Some(*v),
                None => None,
            }),
    {
        let ghost m = image_fn(*renaming);
        if let Some(entry) = self.values.get(&access.order_key()) {
            return Some(&entry.value);
        }
        match access {
            Access::ArrayAccess(_, _) => {
                let wanted = rename_access(access, renaming);
                let mut i: usize = 0;
                assert(self.values@.skip(0) =~= self.values@);
                while i < self.values.len()
                    invariant
                        renaming.ready(),
                        m == image_fn(*renaming),
                        wanted == renamed_access(m, *access),
                        i <= self.values@.len(),
                        first_canonical(self.values@.skip(i as int), *access, m) == first_canonical(
                            self.values@,
                            *access,
                            m,
                        ),
                        find_canonical(self@, *access, m) == first_canonical(
                            self.values@,
                            *access,
                            m,
                        ),
                    decreases self.values@.len() - i,
                {
                    let ghost s = self.values@.skip(i as int);
                    assert(s[0] == self.values@[i as int]);
                    assert(s.drop_first() =~= self.values@.skip(i + 1));
                    let entry = self.values.value_at(i);
                    let existing = rename_access(&entry.access, renaming);
                    if same_key(&existing, &wanted) {
                        return Some(&entry.value);
                    }
                    i = i + 1;
                }
                None
            },
            _ => None,
        }
    }

    pub fn is_empty(&self) -> (b: bool)
        ensures
            b == (self@.values.len() == 0),
    {
        self.values.is_empty()
    }

    pub fn len(&self) -> (n: usize)
        ensures
            n == self@.values.len(),
            sorted::<Key, EdgeEntry>(self@.values),
    {
        self.values.len()
    }

    /// The access at position `i`, in the order of accesses.
    pub fn access_at(&self, i: usize) -> (r: &Access)
        requires
            i < self@.values.len(),
        ensures
            *r == self@.values[i as int].1.access,
    {
        &self.values.value_at(i).access
    }

    /// The value at position `i`, in the order of accesses.
    pub fn value_at(&self, i: usize) -> (r: &ValueWithHistory)
        requires
            i < self@.values.len(),
        ensures
            *r == self@.values[i as int].1.value,
    {
        &self.values.value_at(i).value
    }

    /// The bindings without their histories, in the order of accesses.
    pub fn iter(&self) -> (r: Vec<(&Access, &AbstractValue)>)
        ensures
            r@.len() == self@.values.len(),
            forall|i: int|
                0 <= i < r@.len() ==> *(#[trigger] r@[i]).0 == self@.values[i].1.access
                    && *r@[i].1 == self@.values[i].1.value.addr,
    {
        let mut r: Vec<(&Access, &AbstractValue)> = Vec::new();
        let mut i: usize = 0;
        while i < self.values.len()
            invariant
                i <= self.values@.len(),
                r@.len() == i,
                forall|j: int|
                    0 <= j < i ==> *(#[trigger] r@[j]).0 == self.values@[j].1.access && *r@[j].1
                        == self.values@[j].1.value.addr,
            decreases self.values@.len() - i,
        {
            let entry = self.values.value_at(i);
            r.push((&entry.access, &entry.value.addr));
            i = i + 1;
        }
        r
    }

    /// The bindings, in the order of accesses.
    pub fn iter_with_history(&self) -> (r: Vec<(&Access, &ValueWithHistory)>)
        ensures
            r@.len() == self@.values.len(),
            forall|i: int|
                0 <= i < r@.len() ==> *(#[trigger] r@[i]).0 == self@.values[i].1.access
                    && *r@[i].1 == self@.values[i].1.value,
    {
        let mut r: Vec<(&Access, &ValueWithHistory)> = Vec::new();
        let mut i: usize = 0;
        while i < self.values.len()
            invariant
                i <= self.values@.len(),
                r@.len() == i,
                forall|j: int|
                    0 <= j < i ==> *(#[trigger] r@[j]).0 == self.values@[j].1.access && *r@[j].1
                        == self.values@[j].1.value,
            decreases self.values@.len() - i,
        {
            let entry = self.values.value_at(i);
            r.push((&entry.access, &entry.value));
            i = i + 1;
        }
        r
    }
}

fn rename_bindings<R: Renaming>(bindings: &Vec<Binding>, renaming: &R) -> (r: Vec<Binding>)
    requires
        renaming.ready(),
    ensures
        r@ == renamed_bindings(image_fn(*renaming), bindings@),
{
    let ghost m = image_fn(*renaming);
    let mut r: Vec<Binding> = Vec::new();
    let mut i: usize = 0;
    while i < bindings.len()
        invariant
            renaming.ready(),
            m == image_fn(*renaming),
            i <= bindings@.len(),
            r@ == renamed_bindings(m, bindings@).take(i as int),
        decreases bindings@.len() - i,
    {
        let b = &bindings[i];
        let value = ValueWithHistory::new(renaming.apply(b.1.addr), b.1.history.clone());
        r.push((rename_access(&b.0, renaming), value));
        assert(renamed_bindings(m, bindings@)[i as int] == renamed_binding(m, bindings@[i as int]));
        assert(renamed_bindings(m, bindings@).take(i + 1) =~= renamed_bindings(m, bindings@).take(
            i as int,
        ).push(renamed_bindings(m, bindings@)[i as int]));
        i = i + 1;
    }
    assert(renamed_bindings(m, bindings@).take(i as int) =~= renamed_bindings(m, bindings@));
    r
}

fn some_access_moves<R: Renaming>(bindings: &Vec<Binding>, renaming: &R) -> (b: bool)
    requires
        renaming.ready(),
    ensures
        b == moves_some_access(image_fn(*renaming), bindings@),
{
    let ghost m = image_fn(*renaming);
    let mut i: usize = 0;
    while i < bindings.len()
        invariant
            renaming.ready(),
            m == image_fn(*renaming),
            i <= bindings@.len(),
            forall|j: int| 0 <= j < i ==> !moves_access(m, (#[trigger] bindings@[j]).0),
        decreases bindings@.len() - i,
    {
        if access_moves(&bindings[i].0, renaming) {
            assert(moves_access(m, bindings@[i as int].0));
            return true;
        }
        i = i + 1;
    }
    false
}

fn some_target_moves<R: Renaming>(bindings: &Vec<Binding>, renaming: &R) -> (b: bool)
    requires
        renaming.ready(),
    ensures
        b == moves_some_target(image_fn(*renaming), bindings@),
{
    let ghost m = image_fn(*renaming);
    let mut i: usize = 0;
    while i < bindings.len()
        invariant
            renaming.ready(),
            m == image_fn(*renaming),
            i <= bindings@.len(),
            forall|j: int|
                0 <= j < i ==> m((#[trigger] bindings@[j]).1.addr) == bindings@[j].1.addr,
        decreases bindings@.len() - i,
    {
        let addr = bindings[i].1.addr;
        if renaming.apply(addr) != addr {
            assert(m(bindings@[i as int].1.addr) != bindings@[i as int].1.addr);
            return true;
        }
        i = i + 1;
    }
    false
}

fn is_found_under(bindings: &Vec<Binding>, k: &Key) -> (b: bool)
    ensures
        b == found_under(bindings@, k@),
{
    let mut i: usize = 0;
    while i < bindings.len()
        invariant
            i <= bindings@.len(),
            forall|j: int| 0 <= j < i ==> (#[trigger] bindings@[j]).0.order() != k@,
        decreases bindings@.len() - i,
    {
        let key = bindings[i].0.order_key();
        proof {
            Key::lt_irreflexive(k@);
        }
        match key.compare(k) {
            Comparison::Equal => {
                assert(bindings@[i as int].0.order() == k@);
                return true;
            },
            _ => {},
        }
        i = i + 1;
    }
    false
}

/// How the accesses in a batch and those left over come about.
fn concat_and_spill(mut head: Vec<Access>, tail: &Vec<Access>, size: usize) -> (r: (
    Vec<Access>,
    Vec<Access>,
))
    requires
        head@.len() <= size,
    ensures
        (r.0@, r.1@) == filled(head@, tail@, size as nat),
{
    if head.len() == 0 {
        return (clone_keys(tail), Vec::new());
    }
    if head.len() == size {
        return (head, clone_keys(tail));
    }
    let mut take: Vec<Access> = Vec::new();
    let mut rest: Vec<Access> = Vec::new();
    let ghost count = head@.len();
    let ghost all = spilled(head@, count, seq![], seq![], tail@, size as nat);
    let mut i: usize = 0;
    assert(tail@.skip(0) =~= tail@);
    while i < tail.len()
        invariant
            i <= tail@.len(),
            count == head@.len(),
            count + take@.len() <= size,
            spilled(head@, count, take@, rest@, tail@.skip(i as int), size as nat) == all,
        decreases tail@.len() - i,
    {
        let ghost s = tail@.skip(i as int);
        assert(s[0] == tail@[i as int]);
        assert(s.drop_first() =~= tail@.skip(i + 1));
        if head.len() + take.len() >= size {
            rest.push(tail[i].clone());
        } else if is_listed(&head, &tail[i]) || is_listed(&take, &tail[i]) {
        } else {
            take.push(tail[i].clone());
        }
        i = i + 1;
    }
    assert(tail@.skip(i as int) =~= Seq::<Access>::empty());
    let ghost start = head@;
    let ghost taken = take@;
    head.append(&mut take);
    assert(head@ =~= start + taken);
    (head, rest)
}

impl Edges {
    /// The accesses of the remembered bindings, oldest first.
    fn reversed_accesses(&self) -> (r: Vec<Access>)
        ensures
            r@ == accesses_reversed(recency(self@)),
    {
        let bindings = self.recency_bindings();
        let ghost all = accesses_reversed(bindings@);
        let mut r: Vec<Access> = Vec::new();
        let mut i: usize = 0;
        while i < bindings.len()
            invariant
                i <= bindings@.len(),
                all == accesses_reversed(bindings@),
                r@ == all.take(i as int),
            decreases bindings@.len() - i,
        {
            r.push(bindings[bindings.len() - 1 - i].0.clone());
            assert(all.take(i + 1) =~= all.take(i as int).push(all[i as int]));
            i = i + 1;
        }
        assert(all.take(i as int) =~= all);
        r
    }

    /// Keeps the bindings of `self` when both edge sets mention the same access,
    /// then fills the remaining recency budget from `right`.
    pub fn union_left_biased(&self, right: &Self) -> (r: Self)
        ensures
            r@ == union_left(self@, right@),
    {
        let limit = match self.limit {
            None => {
                return self.overriding(right);
            },
            Some(limit) => limit,
        };
        let size: usize = if limit == 0 {
            1
        } else {
            limit
        };
        let mut new_keys = self.reversed_accesses();
        let ghost left = new_keys@;
        let mut old_keys: Vec<Access> = Vec::new();
        if new_keys.len() > size {
            old_keys = new_keys.split_off(size);
            assert(new_keys@ =~= left.take(size as int));
            assert(old_keys@ =~= left.skip(size as int));
        }
        if new_keys.len() < size {
            let (filled_new, filled_old) = concat_and_spill(new_keys, &right.new_keys, size);
            new_keys = filled_new;
            old_keys = filled_old;
        }
        if new_keys.len() < size {
            let (filled_new, filled_old) = concat_and_spill(new_keys, &right.old_keys, size);
            new_keys = filled_new;
            old_keys = filled_old;
        }
        assert((new_keys@, old_keys@) == union_batches(
            left,
            right@.new_keys,
            right@.old_keys,
            batch_size(limit),
        ));
        let mut values: OrdMap<Key, EdgeEntry> = OrdMap::new();
        self.bind_union(right, &new_keys, &mut values);
        let ghost first = values@;
        self.bind_union(right, &old_keys, &mut values);
        proof {
            lemma_union_values_split(new_keys@, old_keys@, self@, right@);
        }
        let r = Edges { limit: self.limit, new_keys, old_keys, values };
        assert(r@ =~= union_left(self@, right@));
        r
    }

    fn bind_union(&self, right: &Self, keys: &Vec<Access>, values: &mut OrdMap<Key, EdgeEntry>)
        ensures
            final(values)@ == union_values_from(old(values)@, keys@, self@, right@),
    {
        let ghost start = values@;
        let mut i: usize = 0;
        assert(keys@.take(0) =~= Seq::<Access>::empty());
        while i < keys.len()
            invariant
                i <= keys@.len(),
                values@ == union_values_from(start, keys@.take(i as int), self@, right@),
            decreases keys@.len() - i,
        {
            let ghost s = keys@.take(i + 1);
            assert(s.drop_last() =~= keys@.take(i as int));
            assert(s.last() == keys@[i as int]);
            match self.find_with_history(&keys[i]) {
                Some(value) => bind_entry(values, keys[i].clone(), value.clone()),
                None => match right.find_with_history(&keys[i]) {
                    Some(value) => bind_entry(values, keys[i].clone(), value.clone()),
                    None => {},
                },
            }
            i = i + 1;
        }
        assert(keys@.take(i as int) =~= keys@);
    }

    fn overriding(&self, right: &Self) -> (r: Self)
        requires
            self@.limit is None,
        ensures
            r@ == union_left(self@, right@),
    {
        let mut values = right.values.dup();
        let mut i: usize = 0;
        assert(self.values@.take(0) =~= Seq::<(KeyV, EdgeEntry)>::empty());
        while i < self.values.len()
            invariant
                i <= self.values@.len(),
                values@ == overridden(right.values@, self.values@.take(i as int)),
            decreases self.values@.len() - i,
        {
            let ghost s = self.values@.take(i + 1);
            assert(s.drop_last() =~= self.values@.take(i as int));
            assert(s.last() == self.values@[i as int]);
            let entry = self.values.value_at(i);
            bind_entry(&mut values, entry.access.clone(), entry.value.clone());
            i = i + 1;
        }
        assert(self.values@.take(i as int) =~= self.values@);
        let r = Edges { limit: self.limit, new_keys: Vec::new(), old_keys: Vec::new(), values };
        assert(r@ =~= union_left(self@, right@));
        r
    }

    fn first_change<R: Renaming>(&self, renaming: &R) -> (r: Option<(AbstractValue, AbstractValue)>)
        requires
            renaming.ready(),
        ensures
            r == first_moved(self@.values, image_fn(*renaming)),
    {
        let ghost m = image_fn(*renaming);
        let mut i: usize = 0;
        assert(self.values@.skip(0) =~= self.values@);
        while i < self.values.len()
            invariant
                renaming.ready(),
                m == image_fn(*renaming),
                i <= self.values@.len(),
                first_moved(self.values@.skip(i as int), m) == first_moved(self.values@, m),
            decreases self.values@.len() - i,
        {
            let ghost s = self.values@.skip(i as int);
            assert(s[0] == self.values@[i as int]);
            assert(s.drop_first() =~= self.values@.skip(i + 1));
            let entry = self.values.value_at(i);
            if let Access::ArrayAccess(_, index) = &entry.access {
                let new_index = renaming.apply(*index);
                if new_index != *index {
                    return Some((*index, new_index));
                }
            }
            let new_addr = renaming.apply(entry.value.addr);
            if new_addr != entry.value.addr {
                return Some((entry.value.addr, new_addr));
            }
            i = i + 1;
        }
        None
    }

    /// The first index or target that `f` changes, in the order of accesses, with
    /// what `f` makes of it.
    pub fn first_mapping_change<F: Fn(AbstractValue) -> AbstractValue>(&self, f: F) -> (r: Option<
        (AbstractValue, AbstractValue),
    >)
        requires
            is_mapping(f),
        ensures
            r == first_moved(self@.values, mapping(f)),
    {
        let renaming = ByFn(f);
        proof {
            lemma_by_fn(f);
        }
        self.first_change(&renaming)
    }

    fn retarget<R: Renaming>(&self, bindings: &Vec<Binding>, renaming: &R) -> (r: OrdMap<
        Key,
        EdgeEntry,
    >)
        requires
            renaming.ready(),
        ensures
            r@ == retargeted(self@.values, bindings@, image_fn(*renaming)),
    {
        let ghost m = image_fn(*renaming);
        let ghost all = retargeted(self.values@, bindings@, m);
        let mut values: OrdMap<Key, EdgeEntry> = OrdMap::new();
        let n: usize = self.values.len();
        let mut i: usize = 0;
        assert(all.take(0) =~= Seq::<(KeyV, EdgeEntry)>::empty());
        while i < n
            invariant
                renaming.ready(),
                m == image_fn(*renaming),
                n == self.values@.len(),
                sorted::<Key, EdgeEntry>(self.values@),
                all == retargeted(self.values@, bindings@, m),
                i <= n,
                values@ == all.take(i as int),
            decreases n - i,
        {
            let key = self.values.key_at(i).dup();
            let entry = self.values.value_at(i);
            let value = if is_found_under(bindings, &key) {
                ValueWithHistory::new(
                    renaming.apply(entry.value.addr),
                    entry.value.history.clone(),
                )
            } else {
                entry.value.clone()
            };
            let next = EdgeEntry { access: entry.access.clone(), value };
            proof {
                assert(all[i as int] == (key@, next));
                assert(all.take(i + 1) =~= all.take(i as int).push(all[i as int]));
                assert forall|j: int| 0 <= j < i implies Key::lt((#[trigger] values@[j]).0, key@) by {
                    assert(values@[j] == all[j]);
                    assert(Key::lt(self.values@[j].0, self.values@[i as int].0));
                }
            }
            values.push_last(key, next);
            i = i + 1;
        }
        assert(all.take(i as int) =~= all);
        values
    }

    fn mapped<R: Renaming>(&self, renaming: &R) -> (r: Option<Self>)
        requires
            renaming.ready(),
        ensures
            mapped_edges(self@, image_fn(*renaming)) == (match r {
                Some(e) => Some(e@),
                None => None,
            }),
    {
        let bindings = self.recency_bindings();
        if some_access_moves(&bindings, renaming) {
            let renamed = rename_bindings(&bindings, renaming);
            return Some(Self::of_bindings(&renamed, self.limit));
        }
        if some_target_moves(&bindings, renaming) {
            let r = Edges {
                limit: self.limit,
                new_keys: clone_keys(&self.new_keys),
                old_keys: clone_keys(&self.old_keys),
                values: self.retarget(&bindings, renaming),
            };
            assert(r@ =~= (EdgesV {
                values: retargeted(self@.values, bindings@, image_fn(*renaming)),
                ..self@
            }));
            return Some(r);
        }
        None
    }

    /// The edges with every remembered index and target replaced by its image
    /// under `f`, if that changes anything.
    pub fn mapped_values<F: Fn(AbstractValue) -> AbstractValue>(&self, f: F) -> (r: Option<Self>)
        requires
            is_mapping(f),
        ensures
            mapped_edges(self@, mapping(f)) == (match r {
                Some(e) => Some(e@),
                None => None,
            }),
    {
        let renaming = ByFn(f);
        proof {
            lemma_by_fn(f);
        }
        self.mapped(&renaming)
    }

    /// Rewrite edge targets and access indices through a value mapper; `true`
    /// when that changed something.
    pub fn map_values<F: Fn(AbstractValue) -> AbstractValue>(&mut self, f: F) -> (b: bool)
        requires
            is_mapping(f),
        ensures
            b == (mapped_edges(old(self)@, mapping(f)) is Some),
            b ==> Some(final(self)@) == mapped_edges(old(self)@, mapping(f)),
            !b ==> final(self)@ == old(self)@,
    {
        match self.mapped_values(f) {
            None => false,
            Some(rewritten) => {
                *self = rewritten;
                true
            },
        }
    }

    /// Substitute abstract values in edge targets and indices.
    pub fn subst_var(&mut self, old_value: AbstractValue, new_value: AbstractValue)
        ensures
            final(self)@ == subst_edges(old(self)@, old_value, new_value),
    {
        let renaming = Subst { old: old_value, new: new_value };
        proof {
            lemma_subst(renaming);
        }
        let bindings = self.recency_bindings();
        let renamed = rename_bindings(&bindings, &renaming);
        *self = Self::of_bindings(&renamed, self.limit);
    }
}

/// `start` with the bindings of `keys` in `a`, else in `b`.
pub open spec fn union_values_from(
    start: Seq<(KeyV, EdgeEntry)>,
    keys: Seq<Access>,
    a: EdgesV,
    b: EdgesV,
) -> Seq<(KeyV, EdgeEntry)>
    decreases keys.len(),
{
    if keys.len() == 0 {
        start
    } else {
        let rest = union_values_from(start, keys.drop_last(), a, b);
        let k = keys.last();
        match find_edge(a, k) {
            Some(v) => bind(rest, k, v),
            None => match find_edge(b, k) {
                Some(v) => bind(rest, k, v),
                None => rest,
            },
        }
    }
}

proof fn lemma_union_values_split(x: Seq<Access>, y: Seq<Access>, a: EdgesV, b: EdgesV)
    ensures
        union_values(x + y, a, b) == union_values_from(
            union_values_from(seq![], x, a, b),
            y,
            a,
            b,
        ),
    decreases x.len() + y.len(),
{
    let s = x + y;
    if y.len() > 0 {
        lemma_union_values_split(x, y.drop_last(), a, b);
        assert(s.drop_last() =~= x + y.drop_last());
        assert(s.last() == y.last());
    } else if x.len() > 0 {
        lemma_union_values_split(x.drop_last(), y, a, b);
        assert(s =~= x);
        assert(x.drop_last() + y =~= x.drop_last());
    } else {
        assert(s.len() == 0);
    }
}

struct Allocated<'a> {
    keep: &'a ValueSet,
}

impl<'a> Selector<AbstractValue, Edges> for Allocated<'a> {
    closed spec fn accepts(&self, k: AbstractValue, v: EdgesV) -> bool {
        self.keep@.contains(k) && v.values.len() > 0
    }

    fn test(&self, k: &AbstractValue, v: &Edges) -> (b: bool) {
        self.keep.contains(k) && !v.is_empty()
    }
}

/// The heap graph: maps abstract addresses to their outgoing edges.
#[derive(Debug, PartialEq, Eq)]
pub struct BaseMemory {
    limit: Option<usize>,
    graph: OrdMap<AbstractValue, Edges>,
}

impl View for BaseMemory {
    type V = MemoryV;

    closed spec fn view(&self) -> MemoryV {
        MemoryV { limit: self.limit, graph: self.graph@ }
    }
}

impl Dup for BaseMemory {
    fn dup(&self) -> (r: Self) {
        BaseMemory { limit: self.limit, graph: self.graph.dup() }
    }
}

impl Clone for BaseMemory {
    fn clone(&self) -> (r: Self)
        ensures
            r@ == self@,
    {
        self.dup()
    }
}

impl BaseMemory {
    pub fn empty() -> (r: Self)
        ensures
            r@ == (MemoryV { limit: Some(DEFAULT_RECENCY_LIMIT), graph: seq![] }),
    {
        Self::with_limit(Some(DEFAULT_RECENCY_LIMIT))
    }

    /// The empty heap whose edges are kept in batches bounded by `limit`.
    pub fn with_limit(limit: Option<usize>) -> (r: Self)
        ensures
            r@ == (MemoryV { limit, graph: seq![] }),
    {
        BaseMemory { limit, graph: OrdMap::new() }
    }

    /// A copy of the edges of `addr`; none when it has no entry.
    fn edges_or_none(&self, addr: AbstractValue) -> (r: Edges)
        ensures
            r@ == edges_at(self@, addr),
    {
        match self.graph.get(&addr) {
            Some(edges) => edges.dup(),
            None => Edges::with_limit(self.limit),
        }
    }

    /// Register an address in the heap (ensures it has an entry, even if empty).
    pub fn register_address(&mut self, addr: AbstractValue)
        ensures
            final(self)@ == memory_register(old(self)@, addr),
    {
        if !self.graph.contains_key(&addr) {
            self.graph.insert(addr, Edges::with_limit(self.limit));
        }
    }

    /// Add an edge: `src --access--> target`.
    pub fn add_edge(&mut self, src: AbstractValue, access: Access, target: AbstractValue)
        ensures
            final(self)@ == memory_add(
                old(self)@,
                src,
                access,
                (ValueWithHistory { addr: target, history: ValueHistory::start() }),
            ),
    {
        self.add_edge_with_history(
            src,
            access,
            ValueWithHistory::new(target, ValueHistory::epoch()),
        );
    }

    /// Add an edge together with the target provenance.
    pub fn add_edge_with_history(
        &mut self,
        src: AbstractValue,
        access: Access,
        value: ValueWithHistory,
    )
        ensures
            final(self)@ == memory_add(old(self)@, src, access, value),
    {
        let mut edges = self.edges_or_none(src);
        edges.add_with_history(access, value);
        self.graph.insert(src, edges);
    }

    /// Find the target of an edge: `src --access--> ?`.
    pub fn find_edge(&self, src: AbstractValue, access: &Access) -> (r: Option<AbstractValue>)
        ensures
            r == (match memory_find(self@, src, *access) {
                Some(v) => Some(v.addr),
                None => None,
            }),
    {
        match self.graph.get(&src) {
            Some(edges) => edges.find(access),
            None => None,
        }
    }

    /// Find the target of an edge together with its provenance.
    pub fn find_edge_with_history(&self, src: AbstractValue, access: &Access) -> (r: Option<
        &ValueWithHistory,
    >)
        ensures
            memory_find(self@, src, *access) == (match r {
                Some(v) => Some(*v),
                None => None,
            }),
    {
        match self.graph.get(&src) {
            Some(edges) => edges.find_with_history(access),
            None => None,
        }
    }

    /// Find the target of an edge; see [`Edges::find_with_history_canonicalized`].
    pub fn find_edge_with_history_canonicalized<F: Fn(AbstractValue) -> AbstractValue>(
        &self,
        src: AbstractValue,
        access: &Access,
        get_var_repr: F,
    ) -> (r: Option<&ValueWithHistory>)
        requires
            is_mapping(get_var_repr),
        ensures
            (match lookup(self@.graph, src) {
                Some(e) => find_canonical(e, *access, mapping(get_var_repr)),
                None => None,
            }) == (match r {
                Some(v) => Some(*v),
                None => None,
            }),
    {
        match self.graph.get(&src) {
            Some(edges) => edges.find_with_history_canonicalized(access, get_var_repr),
            None => None,
        }
    }

    /// Check if an edge exists.
    pub fn has_edge(&self, src: AbstractValue, access: &Access) -> (b: bool)
        ensures
            b == (memory_find(self@, src, *access) is Some),
    {
        self.find_edge(src, access).is_some()
    }

    /// Check if an address has any outgoing edges (is "allocated").
    pub fn is_allocated(&self, addr: AbstractValue) -> (b: bool)
        ensures
            b == (edges_at(self@, addr).values.len() > 0),
    {
        match self.graph.get(&addr) {
            Some(edges) => !edges.is_empty(),
            None => false,
        }
    }

    /// Get all edges from an address.
    pub fn get_edges(&self, addr: AbstractValue) -> (r: Option<&Edges>)
        ensures
            lookup(self@.graph, addr) == (match r {
                Some(e) => Some(e@),
                None => None,
            }),
    {
        self.graph.get(&addr)
    }

    /// Remove all outgoing edges for an address.
    pub fn remove(&mut self, addr: AbstractValue)
        ensures
            final(self)@ == without_address(old(self)@, addr),
    {
        self.graph.remove(&addr);
    }

    /// Replace all outgoing edges for an address.
    pub fn set_edges(&mut self, addr: AbstractValue, edges: Edges)
        ensures
            final(self)@ == memory_set(old(self)@, addr, edges@),
    {
        if edges.is_empty() {
            self.remove(addr);
        } else {
            self.graph.insert(addr, edges);
        }
    }

    /// Keep only reachable heap cells that still have outgoing edges.
    pub fn retain_reachable(&mut self, reachable: &ValueSet)
        ensures
            final(self)@ == memory_retain(old(self)@, reachable@),
    {
        let keep = Allocated { keep: reachable };
        self.graph.retain(&keep);
        proof {
            let p = |e: (AbstractValue, EdgesV)| keep.accepts(e.0, e.1);
            let q = |e: (AbstractValue, EdgesV)|
                reachable@.contains(e.0) && e.1.values.len() > 0;
            assert(p =~= q);
        }
    }

    /// Number of addresses in the heap.
    pub fn len(&self) -> (n: usize)
        ensures
            n == self@.graph.len(),
            sorted::<AbstractValue, EdgesV>(self@.graph),
    {
        self.graph.len()
    }

    pub fn is_empty(&self) -> (b: bool)
        ensures
            b == (self@.graph.len() == 0),
    {
        self.graph.is_empty()
    }

    /// The address at position `i`, in increasing order.
    pub fn address_at(&self, i: usize) -> (r: AbstractValue)
        requires
            i < self@.graph.len(),
        ensures
            r == self@.graph[i as int].0,
    {
        *self.graph.key_at(i)
    }

    /// The edges at position `i`, in increasing order of addresses.
    pub fn edges_at_position(&self, i: usize) -> (r: &Edges)
        requires
            i < self@.graph.len(),
        ensures
            r@ == self@.graph[i as int].1,
    {
        self.graph.value_at(i)
    }

    /// All addresses and their edges, in increasing order of addresses.
    pub fn iter(&self) -> (r: Vec<(&AbstractValue, &Edges)>)
        ensures
            r@.len() == self@.graph.len(),
            forall|i: int|
                0 <= i < r@.len() ==> *(#[trigger] r@[i]).0 == self@.graph[i].0 && r@[i].1@
                    == self@.graph[i].1,
    {
        let mut r: Vec<(&AbstractValue, &Edges)> = Vec::new();
        let mut i: usize = 0;
        while i < self.graph.len()
            invariant
                i <= self.graph@.len(),
                r@.len() == i,
                forall|j: int|
                    0 <= j < i ==> *(#[trigger] r@[j]).0 == self.graph@[j].0 && r@[j].1@
                        == self.graph@[j].1,
            decreases self.graph@.len() - i,
        {
            r.push((self.graph.key_at(i), self.graph.value_at(i)));
            i = i + 1;
        }
        r
    }

    fn first_change<R: Renaming>(&self, renaming: &R) -> (r: Option<(AbstractValue, AbstractValue)>)
        requires
            renaming.ready(),
        ensures
            r == first_moved_in(self@.graph, image_fn(*renaming)),
    {
        let ghost m = image_fn(*renaming);
        let mut i: usize = 0;
        assert(self.graph@.skip(0) =~= self.graph@);
        while i < self.graph.len()
            invariant
                renaming.ready(),
                m == image_fn(*renaming),
                i <= self.graph@.len(),
                first_moved_in(self.graph@.skip(i as int), m) == first_moved_in(self.graph@, m),
            decreases self.graph@.len() - i,
        {
            let ghost s = self.graph@.skip(i as int);
            assert(s[0] == self.graph@[i as int]);
            assert(s.drop_first() =~= self.graph@.skip(i + 1));
            let src = *self.graph.key_at(i);
            let new_src = renaming.apply(src);
            if new_src != src {
                return Some((src, new_src));
            }
            let change = self.graph.value_at(i).first_change(renaming);
            if change.is_some() {
                return change;
            }
            i = i + 1;
        }
        None
    }

    /// The first address, index or target that `f` changes, with what `f` makes
    /// of it.
    pub fn first_mapping_change<F: Fn(AbstractValue) -> AbstractValue>(&self, f: F) -> (r: Option<
        (AbstractValue, AbstractValue),
    >)
        requires
            is_mapping(f),
        ensures
            r == first_moved_in(self@.graph, mapping(f)),
    {
        let renaming = ByFn(f);
        proof {
            lemma_by_fn(f);
        }
        self.first_change(&renaming)
    }

    fn rename_all<R: Renaming>(&mut self, renaming: &R)
        requires
            renaming.ready(),
        ensures
            final(self)@ == (MemoryV {
                graph: renamed_graph(old(self)@.graph, image_fn(*renaming)),
                ..old(self)@
            }),
    {
        let ghost m = image_fn(*renaming);
        let mut graph: OrdMap<AbstractValue, Edges> = OrdMap::new();
        let mut i: usize = 0;
        assert(self.graph@.take(0) =~= Seq::<(AbstractValue, EdgesV)>::empty());
        while i < self.graph.len()
            invariant
                *self == *old(self),
                renaming.ready(),
                m == image_fn(*renaming),
                i <= self.graph@.len(),
                graph@ == renamed_graph(self.graph@.take(i as int), m),
            decreases self.graph@.len() - i,
        {
            let ghost s = self.graph@.take(i + 1);
            assert(s.drop_last() =~= self.graph@.take(i as int));
            assert(s.last() == self.graph@[i as int]);
            let edges = self.graph.value_at(i);
            let renamed = if edges.first_change(renaming).is_some() {
                match edges.mapped(renaming) {
                    Some(mapped) => mapped,
                    None => edges.dup(),
                }
            } else {
                edges.dup()
            };
            graph.insert(renaming.apply(*self.graph.key_at(i)), renamed);
            i = i + 1;
        }
        assert(self.graph@.take(i as int) =~= self.graph@);
        self.graph = graph;
    }

    /// Rewrite every heap source, target and index through a value mapper; `true`
    /// when that changed something.
    pub fn map_values<F: Fn(AbstractValue) -> AbstractValue>(&mut self, f: F) -> (b: bool)
        requires
            is_mapping(f),
        ensures
            (final(self)@, b) == mapped_memory(old(self)@, mapping(f)),
    {
        self.map_values_after_first_change(None, f)
    }

    /// Rewrite every heap source, target and index through a value mapper. A
    /// caller that has already found the first change, by
    /// [`BaseMemory::first_mapping_change`], passes it so that the heap is not
    /// searched again.
    pub fn map_values_after_first_change<F: Fn(AbstractValue) -> AbstractValue>(
        &mut self,
        first_change: Option<(AbstractValue, AbstractValue)>,
        f: F,
    ) -> (b: bool)
        requires
            is_mapping(f),
            first_change is Some ==> first_change == first_moved_in(old(self)@.graph, mapping(f)),
        ensures
            (final(self)@, b) == mapped_after(old(self)@, first_change, mapping(f)),
    {
        let renaming = ByFn(f);
        proof {
            lemma_by_fn(f);
        }
        if first_change.is_none() && self.first_change(&renaming).is_none() {
            return false;
        }
        self.rename_all(&renaming);
        true
    }

    fn mentions(&self, old_value: AbstractValue) -> (b: bool)
        ensures
            b == memory_mentions(self@, old_value),
    {
        if self.graph.contains_key(&old_value) {
            return true;
        }
        let mut i: usize = 0;
        while i < self.graph.len()
            invariant
                i <= self.graph@.len(),
                forall|j: int| 0 <= j < i ==> !edges_mention(
                    (#[trigger] self.graph@[j]).1,
                    old_value,
                ),
            decreases self.graph@.len() - i,
        {
            if self.graph.value_at(i).mentions(old_value) {
                assert(edges_mention(self.graph@[i as int].1, old_value));
                return true;
            }
            i = i + 1;
        }
        false
    }

    fn subst_edges_of_all(&mut self, old_value: AbstractValue, new_value: AbstractValue)
        ensures
            final(self)@ == (MemoryV {
                graph: subst_graph(old(self)@.graph, old_value, new_value),
                ..old(self)@
            }),
    {
        let ghost all = subst_graph(self.graph@, old_value, new_value);
        let mut graph: OrdMap<AbstractValue, Edges> = OrdMap::new();
        let n: usize = self.graph.len();
        let mut i: usize = 0;
        assert(all.take(0) =~= Seq::<(AbstractValue, EdgesV)>::empty());
        while i < n
            invariant
                *self == *old(self),
                n == self.graph@.len(),
                sorted::<AbstractValue, EdgesV>(self.graph@),
                all == subst_graph(self.graph@, old_value, new_value),
                i <= n,
                graph@ == all.take(i as int),
            decreases n - i,
        {
            let addr = *self.graph.key_at(i);
            let mut edges = self.graph.value_at(i).dup();
            edges.subst_var(old_value, new_value);
            proof {
                assert(all[i as int] == (addr, edges@));
                assert(all.take(i + 1) =~= all.take(i as int).push(all[i as int]));
                assert forall|j: int| 0 <= j < i implies <AbstractValue as OrdKey>::lt(
                    (#[trigger] graph@[j]).0,
                    addr,
                ) by {
                    assert(graph@[j] == all[j]);
                    assert(
                        <AbstractValue as OrdKey>::lt(self.graph@[j].0, self.graph@[i as int].0)
                    );
                }
            }
            graph.push_last(addr, edges);
            i = i + 1;
        }
        assert(all.take(i as int) =~= all);
        self.graph = graph;
    }

    /// Substitute abstract values: replace `old_value` with `new_value` in both
    /// addresses and edge targets.
    pub fn subst_var(&mut self, old_value: AbstractValue, new_value: AbstractValue)
        ensures
            final(self)@ == memory_subst(old(self)@, old_value, new_value),
    {
        if !self.mentions(old_value) {
            return;
        }
        self.subst_edges_of_all(old_value, new_value);
        proof {
            lemma_lookup_has_key(self.graph@, old_value);
            if lookup(self.graph@, old_value) is None {
                lemma_del_absent(self.graph@, old_value);
            }
        }
        if let Some(edges) = self.graph.remove(&old_value) {
            let mut merged = self.edges_or_none(new_value);
            merged.add_all_of(&edges);
            self.graph.insert(new_value, merged);
        }
    }

    /// Substitution with an aliasing check: if two addresses with edges collapse
    /// to one, the path treated equal values as disjoint memory and is
    /// unsatisfiable.
    pub fn subst_var_or_unsat(&mut self, old_value: AbstractValue, new_value: AbstractValue) -> (r:
        SatUnsat<()>)
        ensures
            (final(self)@, r is Sat) == memory_subst_or_unsat(old(self)@, old_value, new_value),
    {
        if !self.mentions(old_value) {
            return SatUnsat::Sat(());
        }
        self.subst_edges_of_all(old_value, new_value);
        proof {
            lemma_lookup_has_key(self.graph@, old_value);
            if lookup(self.graph@, old_value) is None {
                lemma_del_absent(self.graph@, old_value);
            }
        }
        if let Some(edges) = self.graph.remove(&old_value) {
            let taken = match self.graph.get(&new_value) {
                Some(existing) => !existing.is_empty(),
                None => false,
            };
            if edges.is_empty() {
            } else if taken {
                self.graph.insert(old_value, edges);
                return SatUnsat::Unsat;
            } else {
                self.graph.insert(new_value, edges);
            }
        }
        SatUnsat::Sat(())
    }

    pub open spec fn text(self) -> Seq<char> {
        graph_text(self@.graph)
    }

    pub fn push_text(&self, out: &mut String)
        ensures
            final(out)@ == old(out)@ + self.text(),
    {
        let ghost before = out@;
        let mut i: usize = 0;
        assert(self.graph@.take(0) =~= Seq::<(AbstractValue, EdgesV)>::empty());
        assert(before + graph_text(self.graph@.take(0)) =~= before);
        while i < self.graph.len()
            invariant
                i <= self.graph@.len(),
                out@ == before + graph_text(self.graph@.take(i as int)),
            decreases self.graph@.len() - i,
        {
            let ghost s = self.graph@.take(i + 1);
            let ghost so_far = graph_text(self.graph@.take(i as int));
            assert(s.drop_last() =~= self.graph@.take(i as int));
            assert(s.last() == self.graph@[i as int]);
            let addr = *self.graph.key_at(i);
            let edges = self.graph.value_at(i);
            edges.push_text(addr, out);
            assert(before + so_far + edges_text(addr, edges@.values) =~= before + graph_text(s));
            i = i + 1;
        }
        assert(self.graph@.take(i as int) =~= self.graph@);
    }
}

impl Edges {
    fn mentions(&self, v: AbstractValue) -> (b: bool)
        ensures
            b == edges_mention(self@, v),
    {
        let mut i: usize = 0;
        while i < self.values.len()
            invariant
                i <= self.values@.len(),
                forall|j: int|
                    0 <= j < i ==> (#[trigger] self.values@[j]).1.value.addr != v && !indexed_by(
                        self.values@[j].1.access,
                        v,
                    ),
            decreases self.values@.len() - i,
        {
            let entry = self.values.value_at(i);
            if entry.value.addr == v || access_mentions(&entry.access, v) {
                assert(self@.values[i as int].1 == *entry);
                return true;
            }
            i = i + 1;
        }
        false
    }

    fn add_all_of(&mut self, other: &Edges)
        ensures
            final(self)@ == add_all(old(self)@, other@.values),
    {
        let ghost start = self@;
        let mut i: usize = 0;
        assert(other.values@.take(0) =~= Seq::<(KeyV, EdgeEntry)>::empty());
        while i < other.values.len()
            invariant
                i <= other.values@.len(),
                self@ == add_all(start, other.values@.take(i as int)),
            decreases other.values@.len() - i,
        {
            let ghost s = other.values@.take(i + 1);
            assert(s.drop_last() =~= other.values@.take(i as int));
            assert(s.last() == other.values@[i as int]);
            let entry = other.values.value_at(i);
            self.add_with_history(entry.access.clone(), entry.value.clone());
            i = i + 1;
        }
        assert(other.values@.take(i as int) =~= other.values@);
    }

    fn push_text(&self, addr: AbstractValue, out: &mut String)
        ensures
            final(out)@ == old(out)@ + edges_text(addr, self@.values),
    {
        let ghost before = out@;
        let mut i: usize = 0;
        assert(self.values@.take(0) =~= Seq::<(KeyV, EdgeEntry)>::empty());
        assert(before + edges_text(addr, self.values@.take(0)) =~= before);
        while i < self.values.len()
            invariant
                i <= self.values@.len(),
                out@ == before + edges_text(addr, self.values@.take(i as int)),
            decreases self.values@.len() - i,
        {
            let ghost s = self.values@.take(i + 1);
            assert(s.drop_last() =~= self.values@.take(i as int));
            assert(s.last() == self.values@[i as int]);
            let entry = self.values.value_at(i);
            addr.push_text(out);
            out.append(" -");
            entry.access.push_text(out);
            out.append("-> ");
            entry.value.addr.push_text(out);
            out.append("; ");
            assert(out@ =~= before + edges_text(addr, s));
            i = i + 1;
        }
        assert(self.values@.take(i as int) =~= self.values@);
    }
}

fn access_mentions(access: &Access, v: AbstractValue) -> (b: bool)
    ensures
        b == indexed_by(*access, v),
{
    match access {
        Access::ArrayAccess(_, index) => *index == v,
        _ => false,
    }
}

} // verus!
