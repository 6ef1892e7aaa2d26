use pulse::binop::Binop;
use pulse::formula::citv::{AbductionResult, Bound, CItv};

#[test]
fn test_equal_to() {
    let i = CItv::equal_to(5);
    assert_eq!(i.to_singleton(), Some(5));
    assert!(!i.is_equal_to_zero());
    assert!(CItv::equal_to(0).is_equal_to_zero());
}

#[test]
fn test_intersection_disjoint() {
    let a = CItv::Between(Bound::Int(0), Bound::Int(5));
    let b = CItv::Between(Bound::Int(10), Bound::Int(20));
    assert!(a.intersection(&b).is_none());
}

#[test]
fn test_intersection_overlap() {
    let a = CItv::Between(Bound::Int(0), Bound::Int(10));
    let b = CItv::Between(Bound::Int(5), Bound::Int(20));
    let r = a.intersection(&b).unwrap();
    assert_eq!(r, CItv::Between(Bound::Int(5), Bound::Int(10)));
}

#[test]
fn test_between_outside_unsat() {
    // x ∈ [3, 5] and x ∉ [2, 6] → UNSAT (x must be in [3,5] but [2,6] excludes it)
    let a = CItv::Between(Bound::Int(3), Bound::Int(5));
    let b = CItv::Outside(2, 6);
    assert!(a.intersection(&b).is_none());
}

#[test]
fn test_abduce_eq_singleton_unsat() {
    // x = 5 and x = 3 → UNSAT
    let a = CItv::equal_to(5);
    let b = CItv::equal_to(3);
    assert!(matches!(a.abduce_eq(&b), AbductionResult::Unsatisfiable));
}

#[test]
fn test_abduce_ne_singleton_unsat() {
    // x = 5 and x ≠ 5 → UNSAT
    let a = CItv::equal_to(5);
    let b = CItv::equal_to(5);
    assert!(matches!(a.abduce_ne(&b), AbductionResult::Unsatisfiable));
}

#[test]
fn test_abduce_le_unsat() {
    // x ∈ [10, 20] ≤ y ∈ [0, 5] → UNSAT
    let a = CItv::Between(Bound::Int(10), Bound::Int(20));
    let b = CItv::Between(Bound::Int(0), Bound::Int(5));
    assert!(matches!(a.abduce_le(&b), AbductionResult::Unsatisfiable));
}

#[test]
fn test_binop_add() {
    let a = CItv::Between(Bound::Int(1), Bound::Int(3));
    let b = CItv::Between(Bound::Int(10), Bound::Int(20));
    let r = CItv::binop(&Binop::PlusA(None), &a, &b).unwrap();
    assert_eq!(r, CItv::Between(Bound::Int(11), Bound::Int(23)));
}

#[test]
fn negating_mirrors_an_interval() {
    let range = CItv::Between(Bound::Int(-3), Bound::PlusInfinity);
    assert_eq!(range.negate(), CItv::Between(Bound::MinusInfinity, Bound::Int(3)));
    assert_eq!(range.negate().negate(), range);
    let hole = CItv::Outside(2, 6);
    assert_eq!(hole.negate(), CItv::Outside(-6, -2));
    assert_eq!(hole.negate().negate(), hole);
}

#[test]
fn bounds_are_in_order() {
    let ordered = [
        Bound::MinusInfinity,
        Bound::Int(i64::MIN),
        Bound::Int(0),
        Bound::Int(i64::MAX),
        Bound::PlusInfinity,
    ];
    for (i, a) in ordered.iter().enumerate() {
        for (j, b) in ordered.iter().enumerate() {
            assert_eq!(a.lt(b), i < j);
            assert_eq!(a.le(b), i <= j);
        }
    }
}
