use pulse::abstract_value::{AbstractValue, FreshCounters};
use pulse::access::Access;
use pulse::attribute::Attribute;
use pulse::base_domain::BaseDomain;
use pulse::invalidation::Invalidation;
use pulse::list::List;
use pulse::sil::{Ident, IdentName, IntLit, Location, Var};
use pulse::value_history::ValueHistory;

#[test]
fn test_base_domain_empty() {
    let dom = BaseDomain::empty();
    assert!(dom.stack.is_empty());
    assert!(dom.heap.is_empty());
    assert!(dom.attrs.is_empty());
}

#[test]
fn test_base_domain_stack_heap_attrs() {
    let mut counters = FreshCounters::new();
    let mut dom = BaseDomain::empty();

    let v1 = AbstractValue::mk_fresh(&mut counters);
    let v2 = AbstractValue::mk_fresh(&mut counters);

    // Stack: variable x → v1
    let x = Var::LogicalVar(Ident::create_normal(IdentName::from_string("x"), 0));
    dom.stack.add(x.clone(), v1);

    // Heap: v1 --*--> v2
    dom.heap.add_edge(v1, Access::Dereference, v2);

    // Attrs: v2 is invalid (null)
    dom.attrs.invalidate(
        v2,
        Invalidation::ConstantDereference(IntLit::zero()),
        ValueHistory::invalidated(
            Invalidation::ConstantDereference(IntLit::zero()),
            Location::dummy(),
        ),
    );

    // Verify: following x → v1 --*--> v2, and v2 is invalid
    let addr = dom.stack.find(&x).unwrap();
    let target = dom.heap.find_edge(addr, &Access::Dereference).unwrap();
    assert!(dom.attrs.check_valid(target).is_err());
}

#[test]
fn base_domain_test_subst_var() {
    let mut dom = BaseDomain::empty();
    let v1 = AbstractValue::of_raw(10);
    let v2 = AbstractValue::of_raw(20);
    let v3 = AbstractValue::of_raw(30);

    let x = Var::LogicalVar(Ident::create_normal(IdentName::from_string("x"), 0));
    dom.stack.add(x.clone(), v1);
    dom.heap.add_edge(v1, Access::Dereference, v2);

    // Replace v1 with v3
    dom.subst_var(v1, v3);

    // Stack should now map x → v3
    assert_eq!(dom.stack.find(&x), Some(v3));
    // Heap should have v3 --*--> v2
    assert_eq!(dom.heap.find_edge(v3, &Access::Dereference), Some(v2));
}

#[test]
fn renaming_reaches_into_attributes() {
    let mut dom = BaseDomain::empty();
    let (v1, v2, v3) = (
        AbstractValue::of_raw(1),
        AbstractValue::of_raw(2),
        AbstractValue::of_raw(3),
    );
    let from = |v| Attribute::ReturnedFromUnknown(List::empty().prepended(v));
    dom.attrs.add_one(v1, from(v2));
    dom.subst_var(v2, v3);
    let attrs = dom.attrs.get(&v1).unwrap();
    assert!(attrs.contains(&from(v3)));
    assert!(!attrs.contains(&from(v2)));
}
