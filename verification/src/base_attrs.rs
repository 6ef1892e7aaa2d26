//! Address attributes map: tracks properties of each abstract address.

use crate::abstract_value::AbstractValue;
use crate::attribute::{
    attributes_add, attributes_renamed, first_of_kind, has_kind, of_kinds, uninitialized,
    without_kind, Allocator, Attribute, AttributeKind, Attributes, AttributesV, InitializationError,
    Timestamp,
};
use crate::formula::resolve::ValueSet;
use crate::invalidation::Invalidation;
use crate::key::KeyV;
use crate::ordered::{
    del, lemma_del_absent, lemma_lookup_has_key, lookup, put, sorted, Dup, OrdKey, OrdMap, Selector,
};
use crate::sil::{Location, Procname};
use crate::value_history::ValueHistory;
use vstd::prelude::*;

verus! {

/// The attributes of each address.
pub type AttrMapV = Seq<(AbstractValue, AttributesV)>;

/// The attributes of `a`; none when it has no entry.
pub open spec fn attrs_at(m: AttrMapV, a: AbstractValue) -> AttributesV {
    match lookup(m, a) {
        Some(s) => s,
        None => seq![],
    }
}

/// `m` with the attributes of `a` set to `s`.
pub open spec fn with_attrs(m: AttrMapV, a: AbstractValue, s: AttributesV) -> AttrMapV {
    put::<AbstractValue, AttributesV>(m, a, s)
}

/// `m` with `attr` on `a`. Being written to initializes an address.
pub open spec fn add_one(m: AttrMapV, a: AbstractValue, attr: Attribute) -> AttrMapV {
    let s = attrs_at(m, a);
    let s1 = if attr is WrittenTo {
        attributes_add(s, Attribute::Initialized)
    } else {
        s
    };
    with_attrs(m, a, attributes_add(s1, attr))
}

/// `m` without the attributes of the given kind on `a`.
pub open spec fn drop_kind(m: AttrMapV, a: AbstractValue, kind: AttributeKind) -> AttrMapV {
    if has_kind(attrs_at(m, a), kind) {
        with_attrs(m, a, without_kind(attrs_at(m, a), kind))
    } else {
        m
    }
}

/// `m` with `a` initialized.
pub open spec fn initialized(m: AttrMapV, a: AbstractValue) -> AttrMapV {
    drop_kind(add_one(m, a, Attribute::Initialized), a, AttributeKind::Uninitialized)
}

/// The invalidation of `a` with its history, if it is invalid.
pub open spec fn invalid_at(m: AttrMapV, a: AbstractValue) -> Option<(Invalidation, ValueHistory)> {
    match first_of_kind(attrs_at(m, a), AttributeKind::Invalid) {
        Some(Attribute::Invalid(inv, history)) => Some((inv, history)),
        _ => None,
    }
}

/// The attributes of the given kinds, for the addresses that have some.
pub open spec fn restricted(m: AttrMapV, kinds: Seq<AttributeKind>) -> AttrMapV
    decreases m.len(),
{
    if m.len() == 0 {
        seq![]
    } else {
        let rest = restricted(m.drop_last(), kinds);
        let s = of_kinds(m.last().1, kinds);
        if s.len() == 0 {
            rest
        } else {
            rest.push((m.last().0, s))
        }
    }
}

/// `s` with the attributes of `t`.
pub open spec fn attributes_union(s: AttributesV, t: AttributesV) -> AttributesV
    decreases t.len(),
{
    if t.len() == 0 {
        s
    } else {
        attributes_add(attributes_union(s, t.drop_last()), t.last().1)
    }
}

/// `m` with `new` in place of `old` in what the attributes speak of.
pub open spec fn attr_values_renamed(
    m: AttrMapV,
    old: AbstractValue,
    new: AbstractValue,
) -> AttrMapV {
    Seq::new(m.len(), |i: int| (m[i].0, attributes_renamed(m[i].1, old, new)))
}

/// `m` with the attributes of `old` moved to `new`.
pub open spec fn attrs_moved(m: AttrMapV, old: AbstractValue, new: AbstractValue) -> AttrMapV {
    match lookup(m, old) {
        None => m,
        Some(t) => {
            let rest = del(m, old);
            with_attrs(rest, new, attributes_union(attrs_at(rest, new), t))
        },
    }
}

/// `m` with `new` in place of `old`, as an address and in what the attributes speak
/// of.
pub open spec fn attrs_subst(m: AttrMapV, old: AbstractValue, new: AbstractValue) -> AttrMapV {
    attrs_moved(attr_values_renamed(m, old, new), old, new)
}

/// Attributes as text, each followed by a space.
pub open spec fn attributes_text(s: AttributesV) -> Seq<char>
    decreases s.len(),
{
    if s.len() == 0 {
        seq![]
    } else {
        attributes_text(s.drop_last()) + s.last().1.text() + " "@
    }
}

/// The addresses that have attributes, as text.
pub open spec fn attr_map_text(m: AttrMapV) -> Seq<char>
    decreases m.len(),
{
    if m.len() == 0 {
        seq![]
    } else if m.last().1.len() == 0 {
        attr_map_text(m.drop_last())
    } else {
        attr_map_text(m.drop_last()) + m.last().0.text() + ": "@ + attributes_text(m.last().1)
            + "; "@
    }
}

struct InSet<'a> {
    keep: &'a ValueSet,
}

impl<'a> Selector<AbstractValue, Attributes> for InSet<'a> {
    closed spec fn accepts(&self, k: AbstractValue, v: AttributesV) -> bool {
        self.keep@.contains(k)
    }

    fn test(&self, k: &AbstractValue, v: &Attributes) -> (b: bool) {
        self.keep.contains(k)
    }
}

struct NonEmpty {}

impl Selector<AbstractValue, Attributes> for NonEmpty {
    closed spec fn accepts(&self, k: AbstractValue, v: AttributesV) -> bool {
        v.len() > 0
    }

    fn test(&self, k: &AbstractValue, v: &Attributes) -> (b: bool) {
        !v.is_empty()
    }
}

/// Maps abstract addresses to their attribute sets.
#[derive(Debug, PartialEq, Eq)]
pub struct BaseAddressAttributes {
    map: OrdMap<AbstractValue, Attributes>,
}

impl View for BaseAddressAttributes {
    type V = AttrMapV;

    closed spec fn view(&self) -> AttrMapV {
        self.map@
    }
}

impl Dup for BaseAddressAttributes {
    fn dup(&self) -> (r: Self) {
        BaseAddressAttributes { map: self.map.dup() }
    }
}

impl Clone for BaseAddressAttributes {
    fn clone(&self) -> (r: Self)
        ensures
            r@ == self@,
    {
        self.dup()
    }
}

impl BaseAddressAttributes {
    pub fn empty() -> (r: Self)
        ensures
            r@ == Seq::<(AbstractValue, AttributesV)>::empty(),
    {
        BaseAddressAttributes { map: OrdMap::new() }
    }

    fn attrs_or_none(&self, addr: AbstractValue) -> (r: Attributes)
        ensures
            r@ == attrs_at(self@, addr),
    {
        match self.map.get(&addr) {
            Some(attrs) => attrs.dup(),
            None => Attributes::empty(),
        }
    }

    /// Add a single attribute to an address. `WrittenTo` also initializes it.
    pub fn add_one(&mut self, addr: AbstractValue, attr: Attribute)
        ensures
            final(self)@ == add_one(old(self)@, addr, attr),
    {
        let mut attrs = self.attrs_or_none(addr);
        if matches!(&attr, Attribute::WrittenTo(_, _)) {
            attrs.add(Attribute::Initialized);
        }
        attrs.add(attr);
        self.map.insert(addr, attrs);
    }

    /// Get all attributes for an address.
    pub fn get(&self, addr: &AbstractValue) -> (r: Option<&Attributes>)
        ensures
            lookup(self@, *addr) == (match r {
                Some(s) => Some(s@),
                None => None,
            }),
    {
        self.map.get(addr)
    }

    /// Get mutable attributes for an address.
    pub fn get_mut(&mut self, addr: &AbstractValue) -> (r: Option<&mut Attributes>)
        ensures
            match r {
                Some(attrs) => {
                    &&& lookup(old(self)@, *addr) == Some((*attrs)@)
                    &&& final(self)@ == with_attrs(old(self)@, *addr, (*final(attrs))@)
                },
                None => lookup(old(self)@, *addr) is None && final(self)@ == old(self)@,
            },
    {
        self.map.get_mut(addr)
    }

    /// Check if an address is valid (not invalid).
    ///
    /// Returns `Ok(())` if valid, or the invalidation with its history if invalid.
    /// This is THE null-dereference / use-after-free check.
    pub fn check_valid(&self, addr: AbstractValue) -> (r: Result<
        (),
        Box<(Invalidation, ValueHistory)>,
    >)
        ensures
            invalid_at(self@, addr) == (match r {
                Ok(()) => None,
                Err(e) => Some(*e),
            }),
    {
        if let Some(attrs) = self.map.get(&addr) {
            if let Some((inv, history)) = attrs.get_invalid() {
                return Err(Box::new((inv.clone(), history.clone())));
            }
        }
        Ok(())
    }

    /// Check if an address is initialized.
    pub fn check_initialized(&self, addr: AbstractValue) -> (r: Result<(), InitializationError>)
        ensures
            r == (if uninitialized(attrs_at(self@, addr)) {
                Err::<(), InitializationError>(InitializationError::Uninitialized)
            } else {
                Ok::<(), InitializationError>(())
            }),
    {
        if let Some(attrs) = self.map.get(&addr) {
            if attrs.is_uninitialized() {
                return Err(InitializationError::Uninitialized);
            }
        }
        Ok(())
    }

    /// Get the closure/function-pointer procedure name for an abstract value.
    pub fn get_closure_proc_name(&self, addr: AbstractValue) -> (r: Option<&Procname>)
        ensures
            first_of_kind(attrs_at(self@, addr), AttributeKind::Closure) == (match r {
                Some(p) => Some(Attribute::Closure(*p)),
                None => None,
            }),
    {
        match self.map.get(&addr) {
            Some(attrs) => attrs.get_closure_proc_name(),
            None => None,
        }
    }

    /// Mark an address as invalid.
    pub fn invalidate(&mut self, addr: AbstractValue, inv: Invalidation, history: ValueHistory)
        ensures
            final(self)@ == add_one(old(self)@, addr, Attribute::Invalid(inv, history)),
    {
        self.add_one(addr, Attribute::Invalid(inv, history));
    }

    /// Replace any existing invalidation payload for this address.
    pub fn replace_invalid(&mut self, addr: AbstractValue, inv: Invalidation, history: ValueHistory)
        ensures
            final(self)@ == with_attrs(
                old(self)@,
                addr,
                attributes_add(
                    without_kind(attrs_at(old(self)@, addr), AttributeKind::Invalid),
                    Attribute::Invalid(inv, history),
                ),
            ),
    {
        let mut attrs = self.attrs_or_none(addr);
        attrs.replace_invalid(inv, history);
        self.map.insert(addr, attrs);
    }

    /// Mark an address as allocated.
    pub fn allocate(&mut self, addr: AbstractValue, allocator: Allocator, loc: Location)
        ensures
            final(self)@ == add_one(old(self)@, addr, Attribute::Allocated(allocator, loc)),
    {
        self.add_one(addr, Attribute::Allocated(allocator, loc));
    }

    /// Mark an address as initialized, and no longer as uninitialized.
    pub fn initialize(&mut self, addr: AbstractValue)
        ensures
            final(self)@ == initialized(old(self)@, addr),
    {
        self.add_one(addr, Attribute::Initialized);
        let attrs = self.attrs_or_none(addr);
        if attrs.is_marked_uninitialized() {
            let mut attrs = attrs;
            attrs.remove_uninitialized();
            self.map.insert(addr, attrs);
        }
    }

    /// Mark an address as always reachable.
    pub fn always_reachable(&mut self, addr: AbstractValue)
        ensures
            final(self)@ == add_one(old(self)@, addr, Attribute::AlwaysReachable),
    {
        self.add_one(addr, Attribute::AlwaysReachable);
    }

    /// Mark an address as written to; this initializes it.
    pub fn mark_written_to(&mut self, addr: AbstractValue, timestamp: Timestamp, loc: Location)
        ensures
            final(self)@ == initialized(
                add_one(old(self)@, addr, Attribute::WrittenTo(timestamp, loc)),
                addr,
            ),
    {
        self.add_one(addr, Attribute::WrittenTo(timestamp, loc));
        self.initialize(addr);
    }

    /// Check if an address is allocated.
    pub fn is_allocated(&self, addr: AbstractValue) -> (b: bool)
        ensures
            b == has_kind(attrs_at(self@, addr), AttributeKind::Allocated),
    {
        match self.map.get(&addr) {
            Some(attrs) => attrs.is_allocated(),
            None => false,
        }
    }

    /// Remove the Allocated attribute from an address.
    /// Used during unknown call havoc to prevent false leak reports.
    pub fn remove_allocated(&mut self, addr: AbstractValue)
        ensures
            final(self)@ == drop_kind(old(self)@, addr, AttributeKind::Allocated),
    {
        let mut attrs = self.attrs_or_none(addr);
        if attrs.is_allocated() {
            attrs.remove_allocated();
            self.map.insert(addr, attrs);
        }
    }

    pub fn remove_must_be_initialized(&mut self, addr: AbstractValue)
        ensures
            final(self)@ == drop_kind(old(self)@, addr, AttributeKind::MustBeInitialized),
    {
        let mut attrs = self.attrs_or_none(addr);
        if attrs.get_must_be_initialized().is_some() {
            attrs.remove_must_be_initialized();
            self.map.insert(addr, attrs);
        }
    }

    /// The address at position `i`, in increasing order.
    pub fn address_at(&self, i: usize) -> (r: AbstractValue)
        requires
            i < self@.len(),
        ensures
            r == self@[i as int].0,
    {
        *self.map.key_at(i)
    }

    /// The attributes at position `i`, in increasing order of addresses.
    pub fn attributes_at(&self, i: usize) -> (r: &Attributes)
        requires
            i < self@.len(),
        ensures
            r@ == self@[i as int].1,
    {
        self.map.value_at(i)
    }

    /// All addresses and their attributes, in increasing order of addresses.
    pub fn iter(&self) -> (r: Vec<(&AbstractValue, &Attributes)>)
        ensures
            r@.len() == self@.len(),
            forall|i: int|
                0 <= i < r@.len() ==> *(#[trigger] r@[i]).0 == self@[i].0 && r@[i].1@
                    == self@[i].1,
    {
        let mut r: Vec<(&AbstractValue, &Attributes)> = Vec::new();
        let mut i: usize = 0;
        while i < self.map.len()
            invariant
                i <= self.map@.len(),
                r@.len() == i,
                forall|j: int|
                    0 <= j < i ==> *(#[trigger] r@[j]).0 == self.map@[j].0 && r@[j].1@
                        == self.map@[j].1,
            decreases self.map@.len() - i,
        {
            r.push((self.map.key_at(i), self.map.value_at(i)));
            i = i + 1;
        }
        r
    }

    /// Remove all attributes for an address.
    pub fn remove_addr(&mut self, addr: &AbstractValue)
        ensures
            final(self)@ == del(old(self)@, *addr),
    {
        self.map.remove(addr);
    }

    /// Remove attributes on addresses not in the reachable set.
    pub fn retain_reachable(&mut self, reachable: &ValueSet)
        ensures
            final(self)@ == old(self)@.filter(
                |e: (AbstractValue, AttributesV)| reachable@.contains(e.0),
            ),
    {
        let test = InSet { keep: reachable };
        self.map.retain(&test);
        proof {
            let p = |e: (AbstractValue, AttributesV)| test.accepts(e.0, e.1);
            let q = |e: (AbstractValue, AttributesV)| reachable@.contains(e.0);
            assert(p =~= q);
        }
    }

    fn restrict(&mut self, kinds: &Vec<AttributeKind>)
        ensures
            final(self)@ == restricted(old(self)@, kinds@),
    {
        let mut map: OrdMap<AbstractValue, Attributes> = OrdMap::new();
        let n: usize = self.map.len();
        let mut i: usize = 0;
        assert(self.map@.take(0) =~= Seq::<(AbstractValue, AttributesV)>::empty());
        while i < n
            invariant
                *self == *old(self),
                n == self.map@.len(),
                sorted::<AbstractValue, AttributesV>(self.map@),
                i <= n,
                map@ == restricted(self.map@.take(i as int), kinds@),
                forall|j: int|
                    0 <= j < map@.len() ==> exists|l: int|
                        0 <= l < i && (#[trigger] map@[j]).0 == (#[trigger] self.map@[l]).0,
            decreases n - i,
        {
            let ghost s = self.map@.take(i + 1);
            assert(s.drop_last() =~= self.map@.take(i as int));
            assert(s.last() == self.map@[i as int]);
            let addr = *self.map.key_at(i);
            let mut attrs = self.map.value_at(i).dup();
            attrs.retain_kinds(kinds);
            let ghost before = map@;
            if !attrs.is_empty() {
                proof {
                    assert forall|j: int| 0 <= j < map@.len() implies <AbstractValue as OrdKey>::lt(
                        (#[trigger] map@[j]).0,
                        addr,
                    ) by {
                        let l = choose|l: int|
                            0 <= l < i && map@[j].0 == (#[trigger] self.map@[l]).0;
                        assert(<AbstractValue as OrdKey>::lt(
                            self.map@[l].0,
                            self.map@[i as int].0,
                        ));
                    }
                }
                map.push_last(addr, attrs);
            }
            proof {
                assert forall|j: int| 0 <= j < map@.len() implies exists|l: int|
                    0 <= l < i + 1 && (#[trigger] map@[j]).0 == (#[trigger] self.map@[l]).0 by {
                    if j < before.len() {
                        assert(map@[j] == before[j]);
                        let l = choose|l: int|
                            0 <= l < i && before[j].0 == (#[trigger] self.map@[l]).0;
                        assert(map@[j].0 == self.map@[l].0);
                    } else {
                        assert(map@[j].0 == self.map@[i as int].0);
                    }
                }
            }
            i = i + 1;
        }
        assert(self.map@.take(i as int) =~= self.map@);
        self.map = map;
    }

    /// Keeps the attributes of the kinds that suit the precondition of a summary,
    /// and the addresses that have some.
    pub fn retain_for_pre_summary(&mut self, suitable: &Vec<AttributeKind>)
        ensures
            final(self)@ == restricted(old(self)@, suitable@),
    {
        self.restrict(suitable);
    }

    /// Keeps the attributes of the kinds that suit the postcondition of a summary,
    /// and the addresses that have some.
    pub fn retain_for_post_summary(&mut self, suitable: &Vec<AttributeKind>)
        ensures
            final(self)@ == restricted(old(self)@, suitable@),
    {
        self.restrict(suitable);
    }

    pub fn remove_empty_entries(&mut self)
        ensures
            final(self)@ == old(self)@.filter(|e: (AbstractValue, AttributesV)| e.1.len() > 0),
    {
        let test = NonEmpty {  };
        self.map.retain(&test);
        proof {
            let p = |e: (AbstractValue, AttributesV)| test.accepts(e.0, e.1);
            let q = |e: (AbstractValue, AttributesV)| e.1.len() > 0;
            assert(p =~= q);
        }
    }

    fn rename_values(&mut self, old_value: AbstractValue, new_value: AbstractValue)
        ensures
            final(self)@ == attr_values_renamed(old(self)@, old_value, new_value),
    {
        let ghost all = attr_values_renamed(self@, old_value, new_value);
        let mut r: OrdMap<AbstractValue, Attributes> = OrdMap::new();
        let n: usize = self.map.len();
        let mut i: usize = 0;
        assert(all.take(0) =~= Seq::<(AbstractValue, AttributesV)>::empty());
        while i < n
            invariant
                n == self.map@.len(),
                self@ == old(self)@,
                self@ == self.map@,
                sorted::<AbstractValue, AttributesV>(self.map@),
                all == attr_values_renamed(self.map@, old_value, new_value),
                i <= n,
                r@ == all.take(i as int),
            decreases n - i,
        {
            let key = *self.map.key_at(i);
            let value = self.map.value_at(i).renamed(old_value, new_value);
            proof {
                assert(all[i as int] == (key, value@));
                assert(all.take(i + 1) =~= all.take(i as int).push(all[i as int]));
                if i > 0 {
                    assert(r@.last() == all[i - 1]);
                    assert(<AbstractValue as OrdKey>::lt(
                        self.map@[i - 1].0,
                        self.map@[i as int].0,
                    ));
                }
            }
            r.push_last(key, value);
            i = i + 1;
        }
        assert(all.take(i as int) =~= all);
        self.map = r;
    }

    /// Substitute abstract values: `new_value` takes the place of `old_value`, as an
    /// address and in what the attributes speak of.
    pub fn subst_var(&mut self, old_value: AbstractValue, new_value: AbstractValue)
        ensures
            final(self)@ == attrs_subst(old(self)@, old_value, new_value),
    {
        self.rename_values(old_value, new_value);
        proof {
            lemma_lookup_has_key(self.map@, old_value);
            if lookup(self.map@, old_value) is None {
                lemma_del_absent(self.map@, old_value);
            }
        }
        if let Some(attrs) = self.map.remove(&old_value) {
            let mut merged = self.attrs_or_none(new_value);
            let ghost start = merged@;
            let mut i: usize = 0;
            assert(attrs@.take(0) =~= Seq::<(KeyV, Attribute)>::empty());
            while i < attrs.len()
                invariant
                    i <= attrs@.len(),
                    merged@ == attributes_union(start, attrs@.take(i as int)),
                decreases attrs@.len() - i,
            {
                let ghost s = attrs@.take(i + 1);
                assert(s.drop_last() =~= attrs@.take(i as int));
                assert(s.last() == attrs@[i as int]);
                merged.add(attrs.at(i).clone());
                i = i + 1;
            }
            assert(attrs@.take(i as int) =~= attrs@);
            self.map.insert(new_value, merged);
        }
    }

    pub fn len(&self) -> (n: usize)
        ensures
            n == self@.len(),
            sorted::<AbstractValue, AttributesV>(self@),
    {
        self.map.len()
    }

    pub fn is_empty(&self) -> (b: bool)
        ensures
            b == (self@.len() == 0),
    {
        self.map.is_empty()
    }

    pub open spec fn text(self) -> Seq<char> {
        attr_map_text(self@)
    }

    pub fn push_text(&self, out: &mut String)
        ensures
            final(out)@ == old(out)@ + self.text(),
    {
        let ghost before = out@;
        let mut i: usize = 0;
        assert(self.map@.take(0) =~= Seq::<(AbstractValue, AttributesV)>::empty());
        assert(before + attr_map_text(self.map@.take(0)) =~= before);
        while i < self.map.len()
            invariant
                i <= self.map@.len(),
                out@ == before + attr_map_text(self.map@.take(i as int)),
            decreases self.map@.len() - i,
        {
            let ghost s = self.map@.take(i + 1);
            assert(s.drop_last() =~= self.map@.take(i as int));
            assert(s.last() == self.map@[i as int]);
            let attrs = self.map.value_at(i);
            if !attrs.is_empty() {
                self.map.key_at(i).push_text(out);
                out.append(": ");
                push_attributes_text(attrs, out);
                out.append("; ");
            }
            assert(out@ =~= before + attr_map_text(s));
            i = i + 1;
        }
        assert(self.map@.take(i as int) =~= self.map@);
    }
}

fn push_attributes_text(attrs: &Attributes, out: &mut String)
    ensures
        final(out)@ == old(out)@ + attributes_text(attrs@),
{
    let ghost before = out@;
    let mut i: usize = 0;
    assert(attrs@.take(0) =~= Seq::<(KeyV, Attribute)>::empty());
    assert(before + attributes_text(attrs@.take(0)) =~= before);
    while i < attrs.len()
        invariant
            i <= attrs@.len(),
            out@ == before + attributes_text(attrs@.take(i as int)),
        decreases attrs@.len() - i,
    {
        let ghost s = attrs@.take(i + 1);
        assert(s.drop_last() =~= attrs@.take(i as int));
        assert(s.last() == attrs@[i as int]);
        attrs.at(i).push_text(out);
        out.append(" ");
        assert(out@ =~= before + attributes_text(s));
        i = i + 1;
    }
    assert(attrs@.take(i as int) =~= attrs@);
}

} // verus!
