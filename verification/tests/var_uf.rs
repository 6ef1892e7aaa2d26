use pulse::abstract_value::AbstractValue;
use pulse::formula::var_uf::VarUF;

#[test]
fn test_find_self() {
    let mut uf = VarUF::new();
    let v = AbstractValue::of_raw(1);
    assert_eq!(uf.find(v), v);
}

#[test]
fn test_union_and_find() {
    let mut uf = VarUF::new();
    let v1 = AbstractValue::of_raw(1);
    let v2 = AbstractValue::of_raw(2);

    let result = uf.union(v1, v2);
    assert!(result.is_some());

    // Both should now have the same representative
    assert_eq!(uf.find(v1), uf.find(v2));
    // v1 is simpler (lower raw id), so it should be the representative
    assert_eq!(uf.find(v2), v1);
}

#[test]
fn test_union_idempotent() {
    let mut uf = VarUF::new();
    let v1 = AbstractValue::of_raw(1);
    let v2 = AbstractValue::of_raw(2);

    uf.union(v1, v2);
    let result = uf.union(v1, v2);
    assert!(result.is_none()); // already same class
}

#[test]
fn test_transitive_union() {
    let mut uf = VarUF::new();
    let v1 = AbstractValue::of_raw(1);
    let v2 = AbstractValue::of_raw(2);
    let v3 = AbstractValue::of_raw(3);

    uf.union(v1, v2);
    uf.union(v2, v3);

    // All three should be in the same class
    let r = uf.find(v1);
    assert_eq!(uf.find(v2), r);
    assert_eq!(uf.find(v3), r);
}

#[test]
fn test_union_prefers_ocaml_raw_order_for_restricted_values() {
    let mut uf = VarUF::new();
    let unrestricted = AbstractValue::of_raw(1);
    let restricted = AbstractValue::of_raw(-1);

    assert_eq!(
        uf.union(unrestricted, restricted),
        Some((unrestricted, restricted))
    );
    assert_eq!(uf.find(unrestricted), restricted);
    assert_eq!(uf.find(restricted), restricted);
}

#[test]
fn test_equality_ignores_path_compression_shape() {
    let v1 = AbstractValue::of_raw(1);
    let v2 = AbstractValue::of_raw(2);
    let v3 = AbstractValue::of_raw(3);

    let mut left = VarUF::new();
    left.union(v2, v3);
    left.union(v1, v2);

    let mut right = VarUF::new();
    right.union(v1, v2);
    right.union(v1, v3);

    assert_eq!(left, right);
}
