use pulse::abstract_value::{AbstractValue, FreshCounters};

#[test]
fn test_fresh_values_are_unique() {
    let mut counters = FreshCounters::new();
    AbstractValue::reset_counters(&mut counters);
    let v1 = AbstractValue::mk_fresh(&mut counters);
    let v2 = AbstractValue::mk_fresh(&mut counters);
    let v3 = AbstractValue::mk_fresh(&mut counters);
    assert_ne!(v1, v2);
    assert_ne!(v2, v3);
    assert!(v1.is_unrestricted());
}

#[test]
fn test_restricted_values() {
    let mut counters = FreshCounters::new();
    AbstractValue::reset_counters(&mut counters);
    let r1 = AbstractValue::mk_fresh_restricted(&mut counters);
    let r2 = AbstractValue::mk_fresh_restricted(&mut counters);
    assert_ne!(r1, r2);
    assert!(r1.is_restricted());
    assert!(!r1.is_unrestricted());
}

#[test]
fn test_display() {
    let v = AbstractValue::of_raw(42);
    assert_eq!(v.to_string(), "v42");
    let r = AbstractValue::of_raw(-3);
    assert_eq!(r.to_string(), "a3");
}

#[test]
fn test_same_kind() {
    let mut counters = FreshCounters::new();
    AbstractValue::reset_counters(&mut counters);
    let v = AbstractValue::mk_fresh(&mut counters);
    let v2 = v.mk_fresh_same_kind(&mut counters);
    assert!(v2.is_unrestricted());

    let r = AbstractValue::mk_fresh_restricted(&mut counters);
    let r2 = r.mk_fresh_same_kind(&mut counters);
    assert!(r2.is_restricted());
}

#[test]
fn test_deterministic_after_reset() {
    let mut counters = FreshCounters::new();
    AbstractValue::reset_counters(&mut counters);
    let a = AbstractValue::mk_fresh(&mut counters);
    let b = AbstractValue::mk_fresh(&mut counters);
    let c = AbstractValue::mk_fresh(&mut counters);

    AbstractValue::reset_counters(&mut counters);
    let a2 = AbstractValue::mk_fresh(&mut counters);
    let b2 = AbstractValue::mk_fresh(&mut counters);
    let c2 = AbstractValue::mk_fresh(&mut counters);

    assert_eq!(a, a2);
    assert_eq!(b, b2);
    assert_eq!(c, c2);
}
