//! What becomes of a state when one value is replaced by another.

use crate::abductive_model::{
    heap_allocated, incorporated, null_attribute, repr_in, stack_allocated, state_subst, AbductiveV,
};
use crate::abstract_value::AbstractValue;
use crate::attribute::{
    attribute_renamed, attributes_add, attributes_mention, attributes_rebuilt, attributes_renamed,
    first_of_kind, has_kind, Attribute, AttributeKind, AttributesV,
};
use crate::base_attrs::{
    add_one, attr_values_renamed, attributes_union, attrs_at, attrs_moved, attrs_subst, invalid_at,
    AttrMapV,
};
use crate::base_domain::BaseV;
use crate::formula::phi::NewEq;
use crate::formula::var_uf::{eqs_wf, law_representative_is_smallest, repr, Eqs};
use crate::key::{Key, KeyV, Keyed};
use crate::ordered::{
    del, lemma_del_sorted, lemma_lookup_at, lemma_lookup_del, lemma_lookup_has_key,
    lemma_lookup_put, lemma_put_members, lookup, OrdKey,
};
use crate::state_laws::{
    attr_map_wf, attributes_wf, law_attribute_added, law_incorporated_keeps_formula, law_marked,
    lemma_attrs_at, lemma_has_kind, lemma_with_attrs,
};
use vstd::prelude::*;

verus! {

/// The attribute is one of the set.
pub open spec fn holds_attribute(s: AttributesV, a: Attribute) -> bool {
    exists|i: int| 0 <= i < s.len() && (#[trigger] s[i]).1 == a
}

/// The set has an attribute that is the same as the given one.
pub open spec fn holds_same(s: AttributesV, a: Attribute) -> bool {
    exists|i: int| 0 <= i < s.len() && (#[trigger] s[i]).1.key() == a.key()
}

/// Adding an attribute makes it a member, keeps the others, and brings in no other.
pub proof fn law_add_members(s: AttributesV, a: Attribute, b: Attribute)
    requires
        attributes_wf(s),
    ensures
        holds_same(attributes_add(s, a), a),
        holds_attribute(s, b) ==> holds_attribute(attributes_add(s, a), b),
        holds_attribute(attributes_add(s, a), b) ==> holds_attribute(s, b) || b == a,
{
    let r = attributes_add(s, a);
    law_attribute_added(s, a, a.kind());
    lemma_lookup_has_key(s, a.key());
    if lookup(s, a.key()) is Some {
        let i = choose|i: int|
            0 <= i < s.len() && (#[trigger] s[i]) == (a.key(), lookup(s, a.key())->0);
        assert(s[i].1.key() == a.key());
    } else {
        lemma_lookup_put::<Key, Attribute>(s, a.key(), a, a.key());
        lemma_lookup_has_key(r, a.key());
        let i = choose|i: int| 0 <= i < r.len() && (#[trigger] r[i]) == (a.key(), a);
        assert(r[i].1.key() == a.key());
        if holds_attribute(s, b) {
            let j = choose|j: int| 0 <= j < s.len() && (#[trigger] s[j]).1 == b;
            lemma_lookup_at::<Key, Attribute>(s, j);
            lemma_lookup_put::<Key, Attribute>(s, a.key(), a, s[j].0);
            lemma_lookup_has_key(r, s[j].0);
            let q = choose|q: int| 0 <= q < r.len() && (#[trigger] r[q]) == (s[j].0, b);
            assert(r[q].1 == b);
        }
        if holds_attribute(r, b) {
            let j = choose|j: int| 0 <= j < r.len() && (#[trigger] r[j]).1 == b;
            lemma_put_members::<Key, Attribute>(s, a.key(), a, j);
            if r[j] != (a.key(), a) {
                let q = choose|q: int| 0 <= q < s.len() && #[trigger] s[q] == r[j];
                assert(s[q].1 == b);
            }
        }
    }
}

/// Adding an attribute loses none that is the same as another.
proof fn lemma_add_same(s: AttributesV, a: Attribute, b: Attribute)
    requires
        attributes_wf(s),
        holds_same(s, b),
    ensures
        holds_same(attributes_add(s, a), b),
{
    let i = choose|i: int| 0 <= i < s.len() && (#[trigger] s[i]).1.key() == b.key();
    let c = s[i].1;
    assert(holds_attribute(s, c));
    law_add_members(s, a, c);
    let r = attributes_add(s, a);
    let j = choose|j: int| 0 <= j < r.len() && (#[trigger] r[j]).1 == c;
    assert(r[j].1.key() == b.key());
}

/// The union of two sets of attributes has every attribute of the first, one the
/// same as each of the second, and no others.
pub proof fn law_attributes_union(s: AttributesV, t: AttributesV, a: Attribute)
    requires
        attributes_wf(s),
    ensures
        attributes_wf(attributes_union(s, t)),
        holds_attribute(s, a) ==> holds_attribute(attributes_union(s, t), a),
        holds_attribute(t, a) ==> holds_same(attributes_union(s, t), a),
        holds_attribute(attributes_union(s, t), a) ==> holds_attribute(s, a) || holds_attribute(
            t,
            a,
        ),
    decreases t.len(),
{
    if t.len() > 0 {
        let rest = t.drop_last();
        let u = attributes_union(s, rest);
        let b = t.last().1;
        law_attributes_union(s, rest, a);
        law_attribute_added(u, b, b.kind());
        law_add_members(u, b, a);
        if holds_attribute(t, a) {
            let i = choose|i: int| 0 <= i < t.len() && (#[trigger] t[i]).1 == a;
            if i < rest.len() {
                assert(rest[i].1 == a);
                lemma_add_same(u, b, a);
            }
        }
        if holds_attribute(rest, a) {
            let i = choose|i: int| 0 <= i < rest.len() && (#[trigger] rest[i]).1 == a;
            assert(t[i].1 == a);
        }
        assert(t[t.len() - 1].1 == b);
    }
}

/// Renaming a value in a set of attributes has one the same as the renamed form of
/// each, and no others.
pub proof fn law_attributes_renamed(
    s: AttributesV,
    old_value: AbstractValue,
    new_value: AbstractValue,
    a: Attribute,
)
    ensures
        attributes_wf(attributes_rebuilt(s, old_value, new_value)),
        holds_attribute(s, a) ==> holds_same(
            attributes_rebuilt(s, old_value, new_value),
            attribute_renamed(a, old_value, new_value),
        ),
        holds_attribute(attributes_rebuilt(s, old_value, new_value), a) ==> exists|i: int|
            0 <= i < s.len() && attribute_renamed((#[trigger] s[i]).1, old_value, new_value) == a,
    decreases s.len(),
{
    if s.len() > 0 {
        let rest = s.drop_last();
        let u = attributes_rebuilt(rest, old_value, new_value);
        let b = attribute_renamed(s.last().1, old_value, new_value);
        law_attributes_renamed(rest, old_value, new_value, a);
        law_attribute_added(u, b, b.kind());
        law_add_members(u, b, a);
        if holds_attribute(s, a) {
            let i = choose|i: int| 0 <= i < s.len() && (#[trigger] s[i]).1 == a;
            if i < rest.len() {
                assert(rest[i].1 == a);
                lemma_add_same(u, b, attribute_renamed(a, old_value, new_value));
            } else {
                law_add_members(u, b, b);
            }
        }
        if holds_attribute(u, a) {
            let i = choose|i: int|
                0 <= i < rest.len() && attribute_renamed(
                    (#[trigger] rest[i]).1,
                    old_value,
                    new_value,
                ) == a;
            assert(attribute_renamed(s[i].1, old_value, new_value) == a);
        }
        assert(attribute_renamed(s[s.len() - 1].1, old_value, new_value) == b);
    }
}

proof fn lemma_kind_same(s: AttributesV, a: Attribute)
    requires
        holds_same(s, a),
    ensures
        has_kind(s, a.kind()),
{
    let i = choose|i: int| 0 <= i < s.len() && (#[trigger] s[i]).1.key() == a.key();
    crate::state_laws::law_key_gives_kind(s[i].1, a);
    lemma_has_kind(s, a.kind());
}

proof fn lemma_kind_of(s: AttributesV, k: AttributeKind) -> (a: Attribute)
    requires
        has_kind(s, k),
    ensures
        holds_attribute(s, a),
        a.kind() == k,
{
    lemma_has_kind(s, k);
    let i = choose|i: int| 0 <= i < s.len() && (#[trigger] s[i]).1.kind() == k;
    s[i].1
}

/// Renaming a value changes the kinds of no set of attributes, and an invalidation
/// not at all.
pub proof fn law_renaming_keeps_kinds(
    s: AttributesV,
    old_value: AbstractValue,
    new_value: AbstractValue,
    k: AttributeKind,
)
    requires
        attributes_wf(s),
    ensures
        attributes_wf(attributes_renamed(s, old_value, new_value)),
        has_kind(attributes_renamed(s, old_value, new_value), k) == has_kind(s, k),
{
    let r = attributes_rebuilt(s, old_value, new_value);
    if attributes_mention(s, old_value) {
        law_attributes_renamed(s, old_value, new_value, Attribute::Initialized);
        if has_kind(s, k) {
            let a = lemma_kind_of(s, k);
            law_attributes_renamed(s, old_value, new_value, a);
            lemma_kind_same(r, attribute_renamed(a, old_value, new_value));
        }
        if has_kind(r, k) {
            let a = lemma_kind_of(r, k);
            law_attributes_renamed(s, old_value, new_value, a);
            let i = choose|i: int|
                0 <= i < s.len() && attribute_renamed(
                    (#[trigger] s[i]).1,
                    old_value,
                    new_value,
                ) == a;
            lemma_has_kind(s, k);
            assert(s[i].1.kind() == k);
        }
    }
}

proof fn lemma_union_kinds(s: AttributesV, t: AttributesV, k: AttributeKind)
    requires
        attributes_wf(s),
    ensures
        attributes_wf(attributes_union(s, t)),
        has_kind(attributes_union(s, t), k) == (has_kind(s, k) || has_kind(t, k)),
{
    let u = attributes_union(s, t);
    law_attributes_union(s, t, Attribute::Initialized);
    lemma_has_kind(u, k);
    lemma_has_kind(s, k);
    lemma_has_kind(t, k);
    if has_kind(s, k) {
        let a = lemma_kind_of(s, k);
        law_attributes_union(s, t, a);
        let i = choose|i: int| 0 <= i < u.len() && (#[trigger] u[i]).1 == a;
        assert(u[i].1.kind() == k);
    }
    if has_kind(t, k) {
        let a = lemma_kind_of(t, k);
        law_attributes_union(s, t, a);
        lemma_kind_same(u, a);
    }
    if has_kind(u, k) {
        let a = lemma_kind_of(u, k);
        law_attributes_union(s, t, a);
    }
}

proof fn lemma_renamed_map(
    m: AttrMapV,
    old_value: AbstractValue,
    new_value: AbstractValue,
    a: AbstractValue,
)
    requires
        attr_map_wf(m),
    ensures
        attr_map_wf(attr_values_renamed(m, old_value, new_value)),
        attrs_at(attr_values_renamed(m, old_value, new_value), a) == attributes_renamed(
            attrs_at(m, a),
            old_value,
            new_value,
        ),
        lookup(attr_values_renamed(m, old_value, new_value), a) is Some <==> lookup(m, a) is Some,
{
    let n = attr_values_renamed(m, old_value, new_value);
    assert forall|i: int, j: int| 0 <= i < j < n.len() implies <AbstractValue as OrdKey>::lt(
        (#[trigger] n[i]).0,
        (#[trigger] n[j]).0,
    ) by {
        assert(<AbstractValue as OrdKey>::lt(m[i].0, m[j].0));
    }
    assert forall|i: int| 0 <= i < n.len() implies attributes_wf((#[trigger] n[i]).1) by {
        assert(attributes_wf(m[i].1));
        law_renaming_keeps_kinds(m[i].1, old_value, new_value, AttributeKind::Invalid);
    }
    lemma_lookup_has_key(m, a);
    lemma_lookup_has_key(n, a);
    if let Some(s) = lookup(m, a) {
        let i = choose|i: int| 0 <= i < m.len() && (#[trigger] m[i]) == (a, s);
        lemma_lookup_at::<AbstractValue, AttributesV>(n, i);
        assert(n[i].0 == a);
    } else if let Some(s) = lookup(n, a) {
        let i = choose|i: int| 0 <= i < n.len() && (#[trigger] n[i]) == (a, s);
        assert(m[i].0 == a);
    } else {
        assert(attributes_renamed(seq![], old_value, new_value) == Seq::<(KeyV, Attribute)>::empty());
    }
}

/// After `old_value` was replaced by `new_value`, the new value has every kind of
/// attribute that either had, and no other; the old one has none; any other address
/// has the kinds it had.
pub proof fn law_subst_keeps_kinds(
    m: AttrMapV,
    old_value: AbstractValue,
    new_value: AbstractValue,
    a: AbstractValue,
    k: AttributeKind,
)
    requires
        attr_map_wf(m),
        old_value != new_value,
    ensures
        attr_map_wf(attrs_subst(m, old_value, new_value)),
        has_kind(attrs_at(attrs_subst(m, old_value, new_value), new_value), k) == (has_kind(
            attrs_at(m, old_value),
            k,
        ) || has_kind(attrs_at(m, new_value), k)),
        attrs_at(attrs_subst(m, old_value, new_value), old_value).len() == 0,
        a != old_value && a != new_value ==> has_kind(
            attrs_at(attrs_subst(m, old_value, new_value), a),
            k,
        ) == has_kind(attrs_at(m, a), k),
{
    let n = attr_values_renamed(m, old_value, new_value);
    lemma_renamed_map(m, old_value, new_value, old_value);
    lemma_renamed_map(m, old_value, new_value, new_value);
    lemma_renamed_map(m, old_value, new_value, a);
    lemma_attrs_at(m, old_value);
    lemma_attrs_at(m, new_value);
    lemma_attrs_at(m, a);
    law_renaming_keeps_kinds(attrs_at(m, old_value), old_value, new_value, k);
    law_renaming_keeps_kinds(attrs_at(m, new_value), old_value, new_value, k);
    law_renaming_keeps_kinds(attrs_at(m, a), old_value, new_value, k);
    match lookup(n, old_value) {
        None => {
            lemma_has_kind(attrs_at(m, old_value), k);
        },
        Some(t) => {
            lemma_moved(n, old_value, new_value, a);
            lemma_attrs_at(n, new_value);
            lemma_union_kinds(attrs_at(n, new_value), t, k);
        },
    }
}

/// The attributes after moving those of one address to another.
proof fn lemma_moved(
    n: AttrMapV,
    old_value: AbstractValue,
    new_value: AbstractValue,
    a: AbstractValue,
)
    requires
        attr_map_wf(n),
        old_value != new_value,
        lookup(n, old_value) is Some,
    ensures
        attr_map_wf(attrs_moved(n, old_value, new_value)),
        attrs_at(attrs_moved(n, old_value, new_value), new_value) == attributes_union(
            attrs_at(n, new_value),
            attrs_at(n, old_value),
        ),
        attrs_at(attrs_moved(n, old_value, new_value), old_value).len() == 0,
        a != old_value && a != new_value ==> attrs_at(attrs_moved(n, old_value, new_value), a)
            == attrs_at(n, a),
{
    let rest = del(n, old_value);
    let u = attributes_union(attrs_at(rest, new_value), attrs_at(n, old_value));
    lemma_del_sorted::<AbstractValue, AttributesV>(n, old_value);
    assert forall|i: int| 0 <= i < rest.len() implies attributes_wf((#[trigger] rest[i]).1) by {
        crate::ordered::lemma_del_members(n, old_value, i);
        let j = choose|j: int| 0 <= j < n.len() && #[trigger] n[j] == rest[i];
        assert(attributes_wf(n[j].1));
    }
    lemma_lookup_del::<AbstractValue, AttributesV>(n, old_value, old_value);
    lemma_lookup_del::<AbstractValue, AttributesV>(n, old_value, new_value);
    lemma_lookup_del::<AbstractValue, AttributesV>(n, old_value, a);
    lemma_attrs_at(rest, new_value);
    law_attributes_union(attrs_at(rest, new_value), attrs_at(n, old_value), Attribute::Initialized);
    lemma_with_attrs(rest, new_value, u, old_value);
    lemma_with_attrs(rest, new_value, u, new_value);
    lemma_with_attrs(rest, new_value, u, a);
}

/// An invalid address makes the value that replaces it invalid, and so does one
/// that is replaced by an invalid address; the reason is one of those on record.
pub proof fn law_subst_keeps_invalid(m: AttrMapV, old_value: AbstractValue, new_value: AbstractValue)
    requires
        attr_map_wf(m),
        old_value != new_value,
    ensures
        ({
            let r = attrs_subst(m, old_value, new_value);
            &&& invalid_at(r, new_value) is Some <==> invalid_at(m, old_value) is Some
                || invalid_at(m, new_value) is Some
            &&& invalid_at(r, new_value) matches Some((inv, history)) ==> holds_attribute(
                attrs_at(m, old_value),
                Attribute::Invalid(inv, history),
            ) || holds_attribute(attrs_at(m, new_value), Attribute::Invalid(inv, history))
            &&& invalid_at(r, old_value) is None
        }),
{
    let r = attrs_subst(m, old_value, new_value);
    let k = AttributeKind::Invalid;
    law_subst_keeps_kinds(m, old_value, new_value, new_value, k);
    lemma_has_kind(attrs_at(m, old_value), k);
    lemma_has_kind(attrs_at(m, new_value), k);
    lemma_has_kind(attrs_at(r, new_value), k);
    if let Some((inv, history)) = invalid_at(r, new_value) {
        let a = Attribute::Invalid(inv, history);
        let n = attr_values_renamed(m, old_value, new_value);
        lemma_first_held(attrs_at(r, new_value), k);
        lemma_renamed_map(m, old_value, new_value, old_value);
        lemma_renamed_map(m, old_value, new_value, new_value);
        lemma_attrs_at(n, new_value);
        if lookup(n, old_value) is Some {
            lemma_moved(n, old_value, new_value, new_value);
            law_attributes_union(attrs_at(n, new_value), attrs_at(n, old_value), a);
        }
        lemma_renamed_invalid(attrs_at(m, new_value), old_value, new_value, inv, history);
        lemma_renamed_invalid(attrs_at(m, old_value), old_value, new_value, inv, history);
    }
}

proof fn lemma_first_held(s: AttributesV, k: AttributeKind)
    ensures
        first_of_kind(s, k) matches Some(a) ==> holds_attribute(s, a),
    decreases s.len(),
{
    if s.len() > 0 {
        let rest = s.drop_first();
        lemma_first_held(rest, k);
        if s[0].1.kind() != k {
            if let Some(a) = first_of_kind(rest, k) {
                let i = choose|i: int| 0 <= i < rest.len() && (#[trigger] rest[i]).1 == a;
                assert(s[i + 1].1 == a);
            }
        }
    }
}

proof fn lemma_renamed_invalid(
    s: AttributesV,
    old_value: AbstractValue,
    new_value: AbstractValue,
    inv: crate::invalidation::Invalidation,
    history: crate::value_history::ValueHistory,
)
    ensures
        holds_attribute(
            attributes_renamed(s, old_value, new_value),
            Attribute::Invalid(inv, history),
        ) ==> holds_attribute(s, Attribute::Invalid(inv, history)),
{
    let a = Attribute::Invalid(inv, history);
    law_attributes_renamed(s, old_value, new_value, a);
    if holds_attribute(attributes_rebuilt(s, old_value, new_value), a) {
        let i = choose|i: int|
            0 <= i < s.len() && attribute_renamed((#[trigger] s[i]).1, old_value, new_value) == a;
        assert(s[i].1 == a);
    }
}

/// The equalities reported replace values that are not representatives by ones of
/// their class.
pub open spec fn merges(eqs: Eqs, news: Seq<NewEq>) -> bool {
    forall|i: int|
        0 <= i < news.len() ==> ((#[trigger] news[i]) matches NewEq::Equal(a, b) ==> repr(eqs, a)
            == repr(eqs, b) && (a == b || repr(eqs, a) != a))
}

/// One of the equalities reported replaces the value.
pub open spec fn replaces(news: Seq<NewEq>, x: AbstractValue) -> bool {
    exists|i: int|
        0 <= i < news.len() && ((#[trigger] news[i]) matches NewEq::Equal(a, b) && a == x && a != b)
}

/// A value that is invalid stays invalid while equalities are taken up: at its own
/// address, or, once an equality replaces it, at the representative of its class.
pub proof fn law_invalid_survives(d: AbductiveV, news: Seq<NewEq>, x: AbstractValue)
    requires
        eqs_wf(d.formula.phi.eqs),
        attr_map_wf(d.post.attrs),
        merges(d.formula.phi.eqs, news),
        has_kind(attrs_at(d.post.attrs, x), AttributeKind::Invalid) || has_kind(
            attrs_at(d.post.attrs, repr(d.formula.phi.eqs, x)),
            AttributeKind::Invalid,
        ),
    ensures
        ({
            let r = repr(d.formula.phi.eqs, x);
            let after = incorporated(d, news).0.post.attrs;
            let k = AttributeKind::Invalid;
            &&& has_kind(attrs_at(after, x), k) || has_kind(attrs_at(after, r), k)
            &&& replaces(news, x) && incorporated(d, news).1 ==> has_kind(attrs_at(after, r), k)
            &&& has_kind(attrs_at(d.post.attrs, r), k) ==> has_kind(attrs_at(after, r), k)
        }),
    decreases news.len(),
{
    let eqs = d.formula.phi.eqs;
    let k = AttributeKind::Invalid;
    let r = repr(eqs, x);
    law_representative_is_smallest(eqs, x);
    if news.len() > 0 {
        let rest = news.drop_first();
        assert(merges(eqs, rest)) by {
            assert forall|i: int| 0 <= i < rest.len() implies ((
            #[trigger] rest[i]) matches NewEq::Equal(a, b) ==> repr(eqs, a) == repr(eqs, b) && (a
                == b || repr(eqs, a) != a)) by {
                assert(rest[i] == news[i + 1]);
            }
        }
        if replaces(news, x) {
            let i = choose|i: int|
                0 <= i < news.len() && ((#[trigger] news[i]) matches NewEq::Equal(a, b) && a == x
                    && a != b);
            if i > 0 {
                assert(rest[i - 1] == news[i]);
            }
        }
        match news[0] {
            NewEq::Equal(a, b) => {
                assert(news[0] matches NewEq::Equal(c, e) && repr(eqs, c) == repr(eqs, e));
                if a == b {
                    law_invalid_survives(d, rest, x);
                } else {
                    let target = repr(eqs, b);
                    let d1 = state_subst(d, a, b);
                    law_subst_keeps_kinds(d.post.attrs, a, target, x, k);
                    law_subst_keeps_kinds(d.post.attrs, a, target, r, k);
                    law_invalid_survives(d1, rest, x);
                }
            },
            NewEq::EqZero(v) => {
                let z = repr_in(d, v);
                let d1 = AbductiveV {
                    post: BaseV { attrs: add_one(d.post.attrs, z, null_attribute()), ..d.post },
                    ..d
                };
                law_marked(d.post.attrs, z, null_attribute(), x);
                law_marked(d.post.attrs, z, null_attribute(), r);
                if !stack_allocated(d, z) {
                    if heap_allocated(d, z) {
                        law_invalid_survives(d1, rest, x);
                    } else {
                        law_invalid_survives(d, rest, x);
                    }
                }
            },
        }
    }
}

/// An invalid value that is found equal to another makes that one invalid: where the
/// state takes up the equality, checking the other finds the value invalid.
pub proof fn law_equal_to_invalid(d: AbductiveV, news: Seq<NewEq>, x: AbstractValue, y: AbstractValue)
    requires
        eqs_wf(d.formula.phi.eqs),
        attr_map_wf(d.post.attrs),
        merges(d.formula.phi.eqs, news),
        invalid_at(d.post.attrs, x) is Some,
        replaces(news, x) || repr(d.formula.phi.eqs, x) == x,
        repr(d.formula.phi.eqs, x) == repr(d.formula.phi.eqs, y),
        incorporated(d, news).1,
    ensures
        ({
            let after = incorporated(d, news).0;
            invalid_at(after.post.attrs, repr_in(after, y)) is Some
        }),
{
    let after = incorporated(d, news).0;
    let r = repr(d.formula.phi.eqs, y);
    lemma_has_kind(attrs_at(d.post.attrs, x), AttributeKind::Invalid);
    law_invalid_survives(d, news, x);
    law_incorporated_keeps_formula(d, news);
    lemma_has_kind(attrs_at(after.post.attrs, r), AttributeKind::Invalid);
}

} // verus!
