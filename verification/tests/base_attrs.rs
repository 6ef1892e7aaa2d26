use pulse::abstract_value::AbstractValue;
use pulse::attribute::Allocator;
use pulse::base_attrs::BaseAddressAttributes;
use pulse::invalidation::Invalidation;
use pulse::sil::{IntLit, Location};
use pulse::value_history::ValueHistory;

#[test]
fn test_check_valid_ok() {
    let attrs = BaseAddressAttributes::empty();
    let v = AbstractValue::of_raw(1);
    assert!(attrs.check_valid(v).is_ok());
}

#[test]
fn test_check_valid_null() {
    let mut attrs = BaseAddressAttributes::empty();
    let v = AbstractValue::of_raw(1);
    attrs.invalidate(
        v,
        Invalidation::ConstantDereference(IntLit::zero()),
        ValueHistory::invalidated(
            Invalidation::ConstantDereference(IntLit::zero()),
            Location::dummy(),
        ),
    );
    let err = attrs.check_valid(v);
    assert!(err.is_err());
    let (inv, _) = *err.unwrap_err();
    assert!(inv.is_null_deref());
}

#[test]
fn test_check_valid_freed() {
    let mut attrs = BaseAddressAttributes::empty();
    let v = AbstractValue::of_raw(1);
    attrs.invalidate(
        v,
        Invalidation::CFree,
        ValueHistory::invalidated(Invalidation::CFree, Location::dummy()),
    );
    assert!(attrs.check_valid(v).is_err());
}

#[test]
fn test_allocate_and_check() {
    let mut attrs = BaseAddressAttributes::empty();
    let v = AbstractValue::of_raw(1);
    attrs.allocate(v, Allocator::CMalloc, Location::dummy());
    assert!(attrs.is_allocated(v));
    assert!(attrs.check_valid(v).is_ok());
}
