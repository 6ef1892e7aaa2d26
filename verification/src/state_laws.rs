//! What holds of analysis states: what was written or read is read again, an
//! invalidated address stays invalid, and the precondition changes by reading
//! alone.

use crate::abductive::blank_state;
use crate::abductive_model::{
    after_read, after_write, applied, bind_formals, deallocated, evaluated, havocked,
    heap_allocated, incorporated, null_attribute, read_value, repr_in, stack_allocated, state_subst,
    with_attr, AbductiveV,
};
use crate::abstract_value::AbstractValue;
use crate::access::Access;
use crate::attribute::{
    attribute_mentions, attribute_renamed, attributes_add, attributes_mention, attributes_rebuilt,
    first_of_kind, has_kind, replaced, uninitialized, values_renamed, without_kind, Attribute,
    AttributeKind, AttributesV,
};
use crate::base_attrs::{
    add_one, attr_values_renamed, attributes_union, attrs_at, attrs_subst, drop_kind, initialized,
    invalid_at, with_attrs, AttrMapV,
};
use crate::base_domain::{base_subst, BaseV};
use crate::base_stack::{stack_add, stack_find, StackEntry, StackV};
use crate::formula::formula_model::FormulaModel;
use crate::formula::phi::NewEq;
use crate::formula::progress_laws::{in_order, law_equal_values_share_a_class};
use crate::formula::solver::run_var_equal;
use crate::heap_laws::{
    forgotten, law_memory_add_wf, law_memory_subst_forgets, law_memory_write_read, memory_wf,
};
use crate::heap_model::{edges_at, memory_add, memory_find, memory_mentions, no_edges, EdgesV};
use crate::heap_reach::reachable_set;
use crate::invalidation::Invalidation;
use crate::key::{Key, KeyV, Keyed, PartV};
use crate::list::List;
use crate::ordered::{
    del, lemma_del_sorted, lemma_filter_members, lemma_filter_sorted, lemma_lookup_at,
    lemma_lookup_del, lemma_lookup_has_key, lemma_lookup_put, lemma_put_members, lemma_put_sorted,
    lookup, put, sorted, OrdKey,
};
use crate::sat_unsat::SatUnsat;
use crate::sil::{Mangled, Procname, Typ, Var};
use crate::value_history::{ValueHistory, ValueWithHistory};
use vstd::prelude::*;

verus! {

/// What was written to an address is read from it.
pub proof fn law_write_read(
    d: AbductiveV,
    src: ValueWithHistory,
    access: Access,
    value: ValueWithHistory,
    fresh: AbstractValue,
)
    requires
        memory_wf(d.post.heap),
        !forgotten(edges_at(d.post.heap, src.addr), access),
    ensures
        read_value(after_write(d, src.addr, access, value), src, access, fresh) == value,
        after_read(after_write(d, src.addr, access, value), src, access, fresh) == after_write(
            d,
            src.addr,
            access,
            value,
        ),
{
    law_memory_write_read(d.post.heap, src.addr, access, value);
}

/// Reading again gives the same value and changes nothing, whatever values are
/// fresh by then.
pub proof fn law_read_again(
    d: AbductiveV,
    src: ValueWithHistory,
    access: Access,
    fresh: AbstractValue,
    other: AbstractValue,
)
    requires
        memory_wf(d.post.heap),
    ensures
        read_value(after_read(d, src, access, fresh), src, access, other) == read_value(
            d,
            src,
            access,
            fresh,
        ),
        after_read(after_read(d, src, access, fresh), src, access, other) == after_read(
            d,
            src,
            access,
            fresh,
        ),
{
    if memory_find(d.post.heap, src.addr, access) is None {
        let value = ValueWithHistory { addr: fresh, history: src.history };
        assert(lookup(edges_at(d.post.heap, src.addr).values, access.order()) is None);
        law_memory_write_read(d.post.heap, src.addr, access, value);
    }
}

/// Reading an edge of an input that was not known before is assumed of the input:
/// the precondition has the edge too, and an entry for its target.
pub proof fn law_read_abduces(
    d: AbductiveV,
    src: ValueWithHistory,
    access: Access,
    fresh: AbstractValue,
)
    requires
        memory_wf(d.pre.heap),
        memory_find(d.post.heap, src.addr, access) is None,
        lookup(d.pre.heap.graph, src.addr) is Some,
        !forgotten(edges_at(d.pre.heap, src.addr), access),
    ensures
        ({
            let r = after_read(d, src, access, fresh);
            let value = ValueWithHistory { addr: fresh, history: src.history };
            &&& memory_find(r.pre.heap, src.addr, access) == Some(value)
            &&& lookup(r.pre.heap.graph, fresh) is Some
        }),
{
    let value = ValueWithHistory { addr: fresh, history: src.history };
    let h = memory_add(d.pre.heap, src.addr, access, value);
    law_memory_write_read(d.pre.heap, src.addr, access, value);
    law_memory_add_wf(d.pre.heap, src.addr, access, value);
    if lookup(h.graph, fresh) is None {
        lemma_lookup_put::<AbstractValue, EdgesV>(h.graph, fresh, no_edges(h.limit), src.addr);
        lemma_lookup_put::<AbstractValue, EdgesV>(h.graph, fresh, no_edges(h.limit), fresh);
    }
}

/// Reading from an address that is no input, writing, evaluating a variable and
/// marking an address leave the precondition as it is.
pub proof fn law_pre_is_kept(
    d: AbductiveV,
    src: ValueWithHistory,
    access: Access,
    value: ValueWithHistory,
    var: Var,
    attr: Attribute,
)
    ensures
        lookup(d.pre.heap.graph, src.addr) is None ==> after_read(
            d,
            src,
            access,
            value.addr,
        ).pre == d.pre,
        after_write(d, src.addr, access, value).pre == d.pre,
        evaluated(d, var, value.addr).pre == d.pre,
        with_attr(d, src.addr, attr).pre == d.pre,
{
}

/// At the start of a procedure the precondition and the current state are the
/// same.
pub proof fn law_initial_state(
    proc_name: Procname,
    formals: Seq<(Mangled, Typ)>,
    next: int,
)
    ensures
        ({
            let d = bind_formals(blank_state(), proc_name, formals, next);
            d.pre == d.post
        }),
    decreases formals.len(),
{
    if formals.len() > 0 {
        law_initial_state(proc_name, formals.drop_last(), next);
    }
}

/// What was bound to a variable is found there, and other variables are as they
/// were.
pub proof fn law_stack_find_added(s: StackV, var: Var, value: ValueWithHistory, other: Var)
    requires
        sorted::<Key, StackEntry>(s),
    ensures
        stack_find(stack_add(s, var, value), other) == (if other.key() == var.key() {
            Some(value)
        } else {
            stack_find(s, other)
        }),
{
    lemma_lookup_put::<Key, StackEntry>(s, var.key(), StackEntry { var, value }, other.key());
}

/// The attributes are in order, each under its key.
pub open spec fn attributes_wf(s: AttributesV) -> bool {
    &&& sorted::<Key, Attribute>(s)
    &&& forall|i: int| 0 <= i < s.len() ==> (#[trigger] s[i]).1.key() == s[i].0
}

/// The addresses are in order, and so are the attributes of each.
pub open spec fn attr_map_wf(m: AttrMapV) -> bool {
    &&& sorted::<AbstractValue, AttributesV>(m)
    &&& forall|i: int| 0 <= i < m.len() ==> attributes_wf((#[trigger] m[i]).1)
}

spec fn kind_tag(k: AttributeKind) -> int {
    match k {
        AttributeKind::AddressOfCppTemporary => 0,
        AttributeKind::AddressOfStackVariable => 1,
        AttributeKind::Allocated => 2,
        AttributeKind::AlwaysReachable => 3,
        AttributeKind::Closure => 4,
        AttributeKind::EndOfCollection => 5,
        AttributeKind::InReportedRetainCycle => 6,
        AttributeKind::Initialized => 7,
        AttributeKind::Invalid => 8,
        AttributeKind::JavaResourceReleased => 9,
        AttributeKind::CSharpResourceReleased => 10,
        AttributeKind::AwaitedAwaitable => 11,
        AttributeKind::MustBeAwaited => 12,
        AttributeKind::MustBeInitialized => 13,
        AttributeKind::MustBeValid => 14,
        AttributeKind::ReturnedFromUnknown => 15,
        AttributeKind::StaticType => 16,
        AttributeKind::StdMoved => 17,
        AttributeKind::StdVectorReserve => 18,
        AttributeKind::UnknownEffect => 19,
        AttributeKind::Uninitialized => 20,
        AttributeKind::UnreachableAt => 21,
        AttributeKind::UsedAsBranchCond => 22,
        AttributeKind::WrittenTo => 23,
    }
}

/// Equal attributes are of the same kind.
pub proof fn law_key_gives_kind(a: Attribute, b: Attribute)
    requires
        a.key() == b.key(),
    ensures
        a.kind() == b.kind(),
{
    assert(a.key()[0] == PartV::Number(kind_tag(a.kind())));
    assert(b.key()[0] == PartV::Number(kind_tag(b.kind())));
}

pub proof fn lemma_has_kind(s: AttributesV, k: AttributeKind)
    ensures
        has_kind(s, k) == (exists|i: int| 0 <= i < s.len() && (#[trigger] s[i]).1.kind() == k),
        first_of_kind(s, k) matches Some(a) ==> a.kind() == k,
    decreases s.len(),
{
    if s.len() > 0 {
        let rest = s.drop_first();
        lemma_has_kind(rest, k);
        if s[0].1.kind() == k {
        } else if has_kind(s, k) {
            let i = choose|i: int| 0 <= i < rest.len() && (#[trigger] rest[i]).1.kind() == k;
            assert(s[i + 1].1.kind() == k);
        } else if exists|i: int| 0 <= i < s.len() && (#[trigger] s[i]).1.kind() == k {
            let i = choose|i: int| 0 <= i < s.len() && (#[trigger] s[i]).1.kind() == k;
            assert(rest[i - 1].1.kind() == k);
        }
    }
}

/// Putting an attribute under a key that is not there, or is that of an attribute
/// of the same kind, changes nothing for other kinds.
proof fn lemma_first_put(s: AttributesV, a: Attribute, k: AttributeKind)
    requires
        lookup(s, a.key()) is None,
    ensures
        a.kind() != k ==> first_of_kind(put::<Key, Attribute>(s, a.key(), a), k) == first_of_kind(
            s,
            k,
        ),
        a.kind() == k && !has_kind(s, k) ==> first_of_kind(
            put::<Key, Attribute>(s, a.key(), a),
            k,
        ) == Some(a),
    decreases s.len(),
{
    let p = put::<Key, Attribute>(s, a.key(), a);
    if s.len() == 0 {
        assert(p.drop_first() =~= s);
    } else if <Key as OrdKey>::lt(a.key(), s[0].0) {
        assert(p.drop_first() =~= s);
    } else {
        lemma_first_put(s.drop_first(), a, k);
        assert(p.drop_first() =~= put::<Key, Attribute>(s.drop_first(), a.key(), a));
        assert(p[0] == s[0]);
    }
}

/// Adding an attribute adds its kind, and changes nothing for other kinds.
pub proof fn law_attribute_added(s: AttributesV, a: Attribute, k: AttributeKind)
    requires
        attributes_wf(s),
    ensures
        attributes_wf(attributes_add(s, a)),
        a.kind() != k ==> first_of_kind(attributes_add(s, a), k) == first_of_kind(s, k),
        a.kind() == k ==> has_kind(attributes_add(s, a), k),
        a.kind() == k && !has_kind(s, k) ==> first_of_kind(attributes_add(s, a), k) == Some(a),
{
    let r = attributes_add(s, a);
    lemma_has_kind(s, k);
    lemma_has_kind(r, k);
    lemma_lookup_has_key(s, a.key());
    if let Some(b) = lookup(s, a.key()) {
        let i = choose|i: int| 0 <= i < s.len() && (#[trigger] s[i]) == (a.key(), b);
        assert(s[i].1.key() == s[i].0);
        law_key_gives_kind(a, b);
    } else {
        lemma_first_put(s, a, k);
        lemma_put_sorted::<Key, Attribute>(s, a.key(), a);
        lemma_lookup_put::<Key, Attribute>(s, a.key(), a, a.key());
        lemma_lookup_has_key(r, a.key());
        let i = choose|i: int| 0 <= i < r.len() && (#[trigger] r[i]) == (a.key(), a);
        assert(r[i].1.kind() == a.kind());
        assert forall|i: int| 0 <= i < r.len() implies (#[trigger] r[i]).1.key() == r[i].0 by {
            lemma_put_members::<Key, Attribute>(s, a.key(), a, i);
            if r[i] != (a.key(), a) {
                let j = choose|j: int| 0 <= j < s.len() && #[trigger] s[j] == r[i];
                assert(s[j].1.key() == s[j].0);
            }
        }
    }
}

pub proof fn lemma_attrs_at(m: AttrMapV, a: AbstractValue)
    requires
        attr_map_wf(m),
    ensures
        attributes_wf(attrs_at(m, a)),
{
    lemma_lookup_has_key(m, a);
    if let Some(s) = lookup(m, a) {
        let i = choose|i: int| 0 <= i < m.len() && (#[trigger] m[i]) == (a, s);
        assert(attributes_wf(m[i].1));
    }
}

pub proof fn lemma_with_attrs(m: AttrMapV, a: AbstractValue, s: AttributesV, b: AbstractValue)
    requires
        attr_map_wf(m),
        attributes_wf(s),
    ensures
        attr_map_wf(with_attrs(m, a, s)),
        attrs_at(with_attrs(m, a, s), b) == (if a == b {
            s
        } else {
            attrs_at(m, b)
        }),
{
    let r = with_attrs(m, a, s);
    lemma_put_sorted::<AbstractValue, AttributesV>(m, a, s);
    lemma_lookup_put::<AbstractValue, AttributesV>(m, a, s, b);
    assert forall|i: int| 0 <= i < r.len() implies attributes_wf((#[trigger] r[i]).1) by {
        lemma_put_members::<AbstractValue, AttributesV>(m, a, s, i);
        if r[i] != (a, s) {
            let j = choose|j: int| 0 <= j < m.len() && #[trigger] m[j] == r[i];
            assert(attributes_wf(m[j].1));
        }
    }
}

/// Marking an address keeps the attributes in order, marks no other address, and
/// makes the address have the kind of the mark.
pub proof fn law_marked(m: AttrMapV, a: AbstractValue, attr: Attribute, b: AbstractValue)
    requires
        attr_map_wf(m),
    ensures
        attr_map_wf(add_one(m, a, attr)),
        a != b ==> attrs_at(add_one(m, a, attr), b) == attrs_at(m, b),
        has_kind(attrs_at(add_one(m, a, attr), a), attr.kind()),
{
    let s = attrs_at(m, a);
    lemma_attrs_at(m, a);
    law_attribute_added(s, Attribute::Initialized, attr.kind());
    let s1 = if attr is WrittenTo {
        attributes_add(s, Attribute::Initialized)
    } else {
        s
    };
    law_attribute_added(s1, attr, attr.kind());
    lemma_with_attrs(m, a, attributes_add(s1, attr), b);
    lemma_with_attrs(m, a, attributes_add(s1, attr), a);
}

/// An address that is written to is initialized.
pub proof fn law_written_is_initialized(m: AttrMapV, a: AbstractValue, attr: Attribute)
    requires
        attr_map_wf(m),
        attr is WrittenTo,
    ensures
        has_kind(attrs_at(add_one(m, a, attr), a), AttributeKind::Initialized),
        !uninitialized(attrs_at(add_one(m, a, attr), a)),
{
    let s = attrs_at(m, a);
    lemma_attrs_at(m, a);
    law_attribute_added(s, Attribute::Initialized, AttributeKind::Initialized);
    let s1 = attributes_add(s, Attribute::Initialized);
    law_attribute_added(s1, attr, AttributeKind::Initialized);
    lemma_with_attrs(m, a, attributes_add(s1, attr), a);
}

/// An invalidated address is invalid, and so is every value known to be equal to
/// it. An address that was valid is invalid for the given reason. No address of
/// another class changes.
pub proof fn law_invalidated(
    d: AbductiveV,
    addr: AbstractValue,
    inv: Invalidation,
    history: ValueHistory,
    other: AbstractValue,
)
    requires
        attr_map_wf(d.post.attrs),
    ensures
        ({
            let r = with_attr(d, addr, Attribute::Invalid(inv, history));
            let before = invalid_at(d.post.attrs, repr_in(d, other));
            let after = invalid_at(r.post.attrs, repr_in(r, other));
            if repr_in(d, other) == repr_in(d, addr) {
                after is Some && (before is None ==> after == Some((inv, history)))
            } else {
                after == before
            }
        }),
{
    let a = repr_in(d, addr);
    let attr = Attribute::Invalid(inv, history);
    let s = attrs_at(d.post.attrs, a);
    lemma_attrs_at(d.post.attrs, a);
    law_attribute_added(s, attr, AttributeKind::Invalid);
    lemma_with_attrs(d.post.attrs, a, attributes_add(s, attr), repr_in(d, other));
    lemma_has_kind(s, AttributeKind::Invalid);
    lemma_has_kind(attributes_add(s, attr), AttributeKind::Invalid);
}

/// A mark other than invalidation changes the validity of no address.
pub proof fn law_mark_keeps_validity(
    d: AbductiveV,
    addr: AbstractValue,
    attr: Attribute,
    other: AbstractValue,
)
    requires
        attr_map_wf(d.post.attrs),
        !(attr is Invalid),
    ensures
        ({
            let r = with_attr(d, addr, attr);
            invalid_at(r.post.attrs, repr_in(r, other)) == invalid_at(
                d.post.attrs,
                repr_in(d, other),
            )
        }),
{
    let a = repr_in(d, addr);
    let s = attrs_at(d.post.attrs, a);
    lemma_attrs_at(d.post.attrs, a);
    law_attribute_added(s, Attribute::Initialized, AttributeKind::Invalid);
    let s1 = if attr is WrittenTo {
        attributes_add(s, Attribute::Initialized)
    } else {
        s
    };
    law_attribute_added(s1, attr, AttributeKind::Invalid);
    lemma_with_attrs(d.post.attrs, a, attributes_add(s1, attr), repr_in(d, other));
}

proof fn lemma_without_kind(s: AttributesV, k: AttributeKind)
    requires
        attributes_wf(s),
    ensures
        attributes_wf(without_kind(s, k)),
        !has_kind(without_kind(s, k), k),
{
    let p = |e: (KeyV, Attribute)| e.1.kind() != k;
    let r = s.filter(p);
    assert(without_kind(s, k) == r);
    lemma_filter_sorted::<Key, Attribute>(s, p);
    lemma_has_kind(r, k);
    assert forall|i: int| 0 <= i < r.len() implies (#[trigger] r[i]).1.key() == r[i].0
        && r[i].1.kind() != k by {
        lemma_filter_members(s, p, i);
        let j = choose|j: int| 0 <= j < s.len() && #[trigger] s[j] == r[i];
        assert(s[j].1.key() == s[j].0);
    }
}

/// Dropping a kind of attribute leaves none of it on the address, and changes no
/// other address.
pub proof fn law_kind_dropped(
    m: AttrMapV,
    a: AbstractValue,
    k: AttributeKind,
    b: AbstractValue,
)
    requires
        attr_map_wf(m),
    ensures
        attr_map_wf(drop_kind(m, a, k)),
        !has_kind(attrs_at(drop_kind(m, a, k), a), k),
        a != b ==> attrs_at(drop_kind(m, a, k), b) == attrs_at(m, b),
{
    lemma_attrs_at(m, a);
    lemma_without_kind(attrs_at(m, a), k);
    if has_kind(attrs_at(m, a), k) {
        lemma_with_attrs(m, a, without_kind(attrs_at(m, a), k), a);
        lemma_with_attrs(m, a, without_kind(attrs_at(m, a), k), b);
    }
}

/// An initialized address does not count as uninitialized.
pub proof fn law_initialized(m: AttrMapV, a: AbstractValue)
    requires
        attr_map_wf(m),
    ensures
        !uninitialized(attrs_at(initialized(m, a), a)),
{
    law_marked(m, a, Attribute::Initialized, a);
    law_kind_dropped(
        add_one(m, a, Attribute::Initialized),
        a,
        AttributeKind::Uninitialized,
        a,
    );
}

proof fn lemma_deallocated(m: AttrMapV, s: Seq<AbstractValue>, x: AbstractValue)
    requires
        attr_map_wf(m),
    ensures
        attr_map_wf(deallocated(m, s)),
        s.contains(x) ==> !has_kind(attrs_at(deallocated(m, s), x), AttributeKind::Allocated),
        !s.contains(x) ==> attrs_at(deallocated(m, s), x) == attrs_at(m, x),
    decreases s.len(),
{
    if s.len() > 0 {
        let rest = s.drop_last();
        lemma_deallocated(m, rest, x);
        law_kind_dropped(deallocated(m, rest), s.last(), AttributeKind::Allocated, x);
        if s.contains(x) && x != s.last() {
            let i = choose|i: int| 0 <= i < s.len() && s[i] == x;
            assert(rest[i] == x);
        }
        if rest.contains(x) {
            let i = choose|i: int| 0 <= i < rest.len() && rest[i] == x;
            assert(s[i] == x);
        }
        if !s.contains(x) {
            assert(s[s.len() - 1] != x);
        }
    }
}

/// After an unknown call nothing that its argument leads to counts as allocated,
/// and the attributes of everything else are as before.
pub proof fn law_havocked_is_not_allocated(
    d: AbductiveV,
    addr: AbstractValue,
    next: int,
    x: AbstractValue,
)
    requires
        attr_map_wf(d.post.attrs),
    ensures
        ({
            let r = havocked(d, addr, next);
            if reachable_set(d.post.heap.graph, addr).contains(x) {
                !has_kind(attrs_at(r.post.attrs, x), AttributeKind::Allocated)
            } else {
                attrs_at(r.post.attrs, x) == attrs_at(d.post.attrs, x)
            }
        }),
{
    lemma_deallocated(d.post.attrs, reachable_set(d.post.heap.graph, addr), x);
}

/// Taking over equations changes the state, not the path condition.
pub proof fn law_incorporated_keeps_formula(d: AbductiveV, eqs: Seq<NewEq>)
    ensures
        incorporated(d, eqs).0.formula == d.formula,
    decreases eqs.len(),
{
    if eqs.len() > 0 {
        match eqs[0] {
            NewEq::Equal(a, b) => {
                let d1 = if a == b {
                    d
                } else {
                    state_subst(d, a, b)
                };
                law_incorporated_keeps_formula(d1, eqs.drop_first());
            },
            NewEq::EqZero(v) => {
                let r = repr_in(d, v);
                let d1 = AbductiveV {
                    post: BaseV { attrs: add_one(d.post.attrs, r, null_attribute()), ..d.post },
                    ..d
                };
                law_incorporated_keeps_formula(d, eqs.drop_first());
                law_incorporated_keeps_formula(d1, eqs.drop_first());
            },
        }
    }
}

/// Two values that a state takes to be equal have one representative in it.
pub proof fn law_equal_values_in_state(d: AbductiveV, v1: AbstractValue, v2: AbstractValue)
    requires
        in_order(d.formula.phi),
    ensures
        run_var_equal(d.formula.phi, v1, v2) matches Some((phi, res)) ==> {
            let after = applied(
                d,
                Some((FormulaModel { phi, ..d.formula }, res)),
            ).0;
            repr_in(after, v1) == repr_in(after, v2)
        },
{
    law_equal_values_share_a_class(d.formula.phi, v1, v2);
    if let Some((phi, SatUnsat::Sat(eqs))) = run_var_equal(d.formula.phi, v1, v2) {
        let f = FormulaModel { phi, ..d.formula };
        law_incorporated_keeps_formula(AbductiveV { formula: f, ..d }, eqs);
    }
}

/// A null value is not the address of a variable; one with edges is invalid.
pub proof fn law_null_is_invalid(d: AbductiveV, v: AbstractValue)
    requires
        attr_map_wf(d.post.attrs),
    ensures
        ({
            let (after, possible) = incorporated(d, seq![NewEq::EqZero(v)]);
            let r = repr_in(d, v);
            &&& possible == !stack_allocated(d, r)
            &&& possible && heap_allocated(d, r) ==> invalid_at(after.post.attrs, r) is Some
            &&& possible && !heap_allocated(d, r) ==> after == d
        }),
{
    let eqs = seq![NewEq::EqZero(v)];
    let r = repr_in(d, v);
    assert(eqs.drop_first() =~= Seq::<NewEq>::empty());
    let d1 = AbductiveV {
        post: BaseV { attrs: add_one(d.post.attrs, r, null_attribute()), ..d.post },
        ..d
    };
    assert(incorporated(d, eqs.drop_first()) == (d, true));
    assert(incorporated(d1, eqs.drop_first()) == (d1, true));
    law_marked(d.post.attrs, r, null_attribute(), r);
    lemma_has_kind(attrs_at(d1.post.attrs, r), AttributeKind::Invalid);
}

proof fn lemma_values_renamed(l: List<AbstractValue>, old_value: AbstractValue, new_value: AbstractValue)
    requires
        old_value != new_value,
    ensures
        !values_renamed(l, old_value, new_value)@.contains(old_value),
    decreases l,
{
    if let List::Cons(v, tail) = l {
        lemma_values_renamed(*tail, old_value, new_value);
        let r = values_renamed(l, old_value, new_value);
        let rest = values_renamed(*tail, old_value, new_value)@;
        assert(r@ == seq![replaced(v, old_value, new_value)] + rest);
        if r@.contains(old_value) {
            let j = choose|j: int| 0 <= j < r@.len() && r@[j] == old_value;
            assert(rest[j - 1] == old_value);
        }
    }
}

/// Adding an attribute that does not speak of a value keeps a set that does not.
proof fn lemma_add_unmentioned(s: AttributesV, a: Attribute, v: AbstractValue)
    requires
        !attributes_mention(s, v),
        !attribute_mentions(a, v),
    ensures
        !attributes_mention(attributes_add(s, a), v),
{
    let r = attributes_add(s, a);
    if attributes_mention(r, v) {
        let i = choose|i: int| 0 <= i < r.len() && attribute_mentions((#[trigger] r[i]).1, v);
        if lookup(s, a.key()) is None {
            lemma_put_members::<Key, Attribute>(s, a.key(), a, i);
            if r[i] != (a.key(), a) {
                let j = choose|j: int| 0 <= j < s.len() && #[trigger] s[j] == r[i];
                assert(attribute_mentions(s[j].1, v));
            }
        }
    }
}

proof fn lemma_attributes_renamed(
    s: AttributesV,
    old_value: AbstractValue,
    new_value: AbstractValue,
)
    requires
        old_value != new_value,
    ensures
        !attributes_mention(attributes_rebuilt(s, old_value, new_value), old_value),
    decreases s.len(),
{
    if s.len() > 0 {
        lemma_attributes_renamed(s.drop_last(), old_value, new_value);
        if let Attribute::ReturnedFromUnknown(vs) = s.last().1 {
            lemma_values_renamed(vs, old_value, new_value);
        }
        lemma_add_unmentioned(
            attributes_rebuilt(s.drop_last(), old_value, new_value),
            attribute_renamed(s.last().1, old_value, new_value),
            old_value,
        );
    }
}

proof fn lemma_union_unmentioned(s: AttributesV, t: AttributesV, v: AbstractValue)
    requires
        !attributes_mention(s, v),
        !attributes_mention(t, v),
    ensures
        !attributes_mention(attributes_union(s, t), v),
    decreases t.len(),
{
    if t.len() > 0 {
        let rest = t.drop_last();
        assert forall|i: int| 0 <= i < rest.len() implies !attribute_mentions(
            (#[trigger] rest[i]).1,
            v,
        ) by {
            assert(rest[i] == t[i]);
        }
        assert(!attribute_mentions(t[t.len() - 1].1, v));
        lemma_union_unmentioned(s, rest, v);
        lemma_add_unmentioned(attributes_union(s, rest), t.last().1, v);
    }
}

/// No attribute in `m` speaks of `v`, and `v` has none.
pub open spec fn free_of(m: AttrMapV, v: AbstractValue) -> bool {
    &&& lookup(m, v) is None
    &&& forall|i: int| 0 <= i < m.len() ==> !attributes_mention((#[trigger] m[i]).1, v)
}

proof fn lemma_attrs_subst(m: AttrMapV, old_value: AbstractValue, new_value: AbstractValue)
    requires
        sorted::<AbstractValue, AttributesV>(m),
        old_value != new_value,
    ensures
        free_of(attrs_subst(m, old_value, new_value), old_value),
{
    let n = attr_values_renamed(m, old_value, new_value);
    assert forall|i: int| 0 <= i < n.len() implies !attributes_mention(
        (#[trigger] n[i]).1,
        old_value,
    ) by {
        lemma_attributes_renamed(m[i].1, old_value, new_value);
    }
    assert forall|i: int, j: int| 0 <= i < j < n.len() implies <AbstractValue as OrdKey>::lt(
        (#[trigger] n[i]).0,
        (#[trigger] n[j]).0,
    ) by {
        assert(<AbstractValue as OrdKey>::lt(m[i].0, m[j].0));
    }
    if let Some(t) = lookup(n, old_value) {
        let rest = del(n, old_value);
        lemma_del_sorted::<AbstractValue, AttributesV>(n, old_value);
        lemma_lookup_del::<AbstractValue, AttributesV>(n, old_value, old_value);
        assert forall|i: int| 0 <= i < rest.len() implies !attributes_mention(
            (#[trigger] rest[i]).1,
            old_value,
        ) by {
            lemma_lookup_at::<AbstractValue, AttributesV>(rest, i);
            lemma_lookup_del::<AbstractValue, AttributesV>(n, old_value, rest[i].0);
            lemma_lookup_has_key(n, rest[i].0);
            let j = choose|j: int|
                0 <= j < n.len() && (#[trigger] n[j]) == (rest[i].0, lookup(n, rest[i].0)->0);
            assert(!attributes_mention(n[j].1, old_value));
        }
        lemma_lookup_has_key(n, old_value);
        let k = choose|k: int| 0 <= k < n.len() && (#[trigger] n[k]) == (old_value, t);
        assert(!attributes_mention(n[k].1, old_value));
        let here = attrs_at(rest, new_value);
        lemma_lookup_has_key(rest, new_value);
        if let Some(u) = lookup(rest, new_value) {
            let q = choose|q: int| 0 <= q < rest.len() && (#[trigger] rest[q]) == (new_value, u);
            assert(!attributes_mention(rest[q].1, old_value));
        }
        let union = attributes_union(here, t);
        lemma_union_unmentioned(here, t, old_value);
        lemma_lookup_put::<AbstractValue, AttributesV>(rest, new_value, union, old_value);
        let r = attrs_subst(m, old_value, new_value);
        assert forall|i: int| 0 <= i < r.len() implies !attributes_mention(
            (#[trigger] r[i]).1,
            old_value,
        ) by {
            lemma_put_members::<AbstractValue, AttributesV>(rest, new_value, union, i);
            if r[i] != (new_value, union) {
                let j = choose|j: int| 0 <= j < rest.len() && #[trigger] rest[j] == r[i];
                assert(!attributes_mention(rest[j].1, old_value));
            }
        }
    }
}

/// Replacing a value leaves no trace of it in the stack, the heap and the
/// attributes: it is no address, no target, no index, and no attribute speaks of
/// it.
pub proof fn law_subst_forgets(b: BaseV, old_value: AbstractValue, new_value: AbstractValue)
    requires
        memory_wf(b.heap),
        attr_map_wf(b.attrs),
        old_value != new_value,
    ensures
        ({
            let r = base_subst(b, old_value, new_value);
            &&& !memory_mentions(r.heap, old_value)
            &&& free_of(r.attrs, old_value)
            &&& forall|i: int|
                0 <= i < r.stack.len() ==> (#[trigger] r.stack[i]).1.value.addr != old_value
        }),
{
    law_memory_subst_forgets(b.heap, old_value, new_value);
    lemma_attrs_subst(b.attrs, old_value, new_value);
}

} // verus!
