use pulse::abstract_value::AbstractValue;
use pulse::access::Access;
use pulse::base_memory::{BaseMemory, Edges};
use pulse::sil::{Fieldname, QualifiedCppName, Typ, TypeName};
use pulse::value_history::{ValueHistory, ValueWithHistory};

fn field_access(name: &str) -> Access {
    Access::FieldAccess(Fieldname::make(
        TypeName::CStruct(QualifiedCppName::from_string("S")),
        name,
    ))
}

#[test]
fn test_edges_mapped_values_target_only_preserves_recency_and_history() {
    let mut edges = Edges::empty();
    let a = field_access("a");
    let b = field_access("b");
    let c = field_access("c");
    let v1 = AbstractValue::of_raw(1);
    let v2 = AbstractValue::of_raw(2);
    let v3 = AbstractValue::of_raw(3);
    let v4 = AbstractValue::of_raw(4);
    edges.add_with_history_limited(
        a.clone(),
        ValueWithHistory::new(v1, ValueHistory::epoch()),
        2,
    );
    edges.add_with_history_limited(
        b.clone(),
        ValueWithHistory::new(v2, ValueHistory::epoch()),
        2,
    );
    edges.add_with_history_limited(
        c.clone(),
        ValueWithHistory::new(v3, ValueHistory::epoch()),
        2,
    );

    let mapped = edges
        .mapped_values(|value| if value == v2 { v4 } else { value })
        .expect("target rewrite should change edges");

    assert_eq!(mapped.get_new_keys(), edges.get_new_keys());
    assert_eq!(mapped.get_old_keys(), edges.get_old_keys());
    assert_eq!(mapped.find(&a), Some(v1));
    assert_eq!(mapped.find(&b), Some(v4));
    assert_eq!(mapped.find(&c), Some(v3));
    assert_eq!(
        mapped.find_with_history(&b).unwrap().history,
        edges.find_with_history(&b).unwrap().history
    );
}

#[test]
fn test_edges_mapped_values_array_index_rebuilds() {
    let mut edges = Edges::empty();
    let old_idx = AbstractValue::of_raw(1);
    let new_idx = AbstractValue::of_raw(2);
    let target = AbstractValue::of_raw(3);
    edges.add_with_history(
        Access::ArrayAccess(Typ::void(), old_idx),
        ValueWithHistory::new(target, ValueHistory::epoch()),
    );

    let mapped = edges
        .mapped_values(|value| if value == old_idx { new_idx } else { value })
        .expect("index rewrite should change edges");

    assert_eq!(
        mapped.find(&Access::ArrayAccess(Typ::void(), new_idx)),
        Some(target)
    );
    assert_eq!(
        mapped.find(&Access::ArrayAccess(Typ::void(), old_idx)),
        None
    );
}

#[test]
fn test_edges_recency_spills_old_batch() {
    let mut edges = Edges::empty();
    let v1 = AbstractValue::of_raw(1);
    let v2 = AbstractValue::of_raw(2);
    let v3 = AbstractValue::of_raw(3);
    let v4 = AbstractValue::of_raw(4);
    let v5 = AbstractValue::of_raw(5);

    edges.add_with_history_limited(
        field_access("a"),
        ValueWithHistory::new(v1, ValueHistory::epoch()),
        2,
    );
    edges.add_with_history_limited(
        field_access("b"),
        ValueWithHistory::new(v2, ValueHistory::epoch()),
        2,
    );
    edges.add_with_history_limited(
        field_access("c"),
        ValueWithHistory::new(v3, ValueHistory::epoch()),
        2,
    );
    edges.add_with_history_limited(
        field_access("d"),
        ValueWithHistory::new(v4, ValueHistory::epoch()),
        2,
    );
    assert_eq!(edges.len(), 4);

    edges.add_with_history_limited(
        field_access("e"),
        ValueWithHistory::new(v5, ValueHistory::epoch()),
        2,
    );

    assert_eq!(edges.len(), 3);
    assert_eq!(edges.find(&field_access("a")), None);
    assert_eq!(edges.find(&field_access("b")), None);
    assert_eq!(edges.find(&field_access("c")), Some(v3));
    assert_eq!(edges.find(&field_access("d")), Some(v4));
    assert_eq!(edges.find(&field_access("e")), Some(v5));
}

#[test]
fn test_edges_recency_update_from_old_promotes_binding() {
    let mut edges = Edges::empty();
    let v1 = AbstractValue::of_raw(1);
    let v2 = AbstractValue::of_raw(2);
    let v3 = AbstractValue::of_raw(3);
    let v4 = AbstractValue::of_raw(4);

    edges.add_with_history_limited(
        field_access("a"),
        ValueWithHistory::new(v1, ValueHistory::epoch()),
        2,
    );
    edges.add_with_history_limited(
        field_access("b"),
        ValueWithHistory::new(v2, ValueHistory::epoch()),
        2,
    );
    edges.add_with_history_limited(
        field_access("c"),
        ValueWithHistory::new(v3, ValueHistory::epoch()),
        2,
    );
    edges.add_with_history_limited(
        field_access("a"),
        ValueWithHistory::new(v4, ValueHistory::epoch()),
        2,
    );

    assert_eq!(edges.len(), 3);
    assert_eq!(edges.find(&field_access("a")), Some(v4));
    assert_eq!(edges.find(&field_access("b")), Some(v2));
    assert_eq!(edges.find(&field_access("c")), Some(v3));
}

#[test]
fn test_edges_union_left_biased_prefers_left() {
    let mut left = Edges::empty();
    let mut right = Edges::empty();
    let a = field_access("a");
    let b = field_access("b");
    let c = field_access("c");
    let v1 = AbstractValue::of_raw(1);
    let v2 = AbstractValue::of_raw(2);
    let v3 = AbstractValue::of_raw(3);
    let v20 = AbstractValue::of_raw(20);

    left.add_with_history_limited(
        a.clone(),
        ValueWithHistory::new(v1, ValueHistory::epoch()),
        32,
    );
    left.add_with_history_limited(
        b.clone(),
        ValueWithHistory::new(v2, ValueHistory::epoch()),
        32,
    );
    right.add_with_history_limited(
        b.clone(),
        ValueWithHistory::new(v20, ValueHistory::epoch()),
        32,
    );
    right.add_with_history_limited(
        c.clone(),
        ValueWithHistory::new(v3, ValueHistory::epoch()),
        32,
    );

    let union = left.union_left_biased(&right);

    assert_eq!(union.find(&a), Some(v1));
    assert_eq!(union.find(&b), Some(v2), "left edge should win");
    assert_eq!(union.find(&c), Some(v3));
}

#[test]
fn test_add_and_find_edge() {
    let mut mem = BaseMemory::empty();
    let v1 = AbstractValue::of_raw(1);
    let v2 = AbstractValue::of_raw(2);

    mem.add_edge(v1, Access::Dereference, v2);
    assert_eq!(mem.find_edge(v1, &Access::Dereference), Some(v2));
    assert!(mem.is_allocated(v1));
}

#[test]
fn test_no_edge() {
    let mem = BaseMemory::empty();
    let v1 = AbstractValue::of_raw(1);
    assert_eq!(mem.find_edge(v1, &Access::Dereference), None);
    assert!(!mem.is_allocated(v1));
}

#[test]
fn base_memory_test_subst_var() {
    let mut mem = BaseMemory::empty();
    let v1 = AbstractValue::of_raw(1);
    let v2 = AbstractValue::of_raw(2);
    let v3 = AbstractValue::of_raw(3);

    mem.add_edge(v1, Access::Dereference, v2);
    mem.subst_var(v2, v3);

    // v1 --*--> v3 (v2 replaced by v3 in target)
    assert_eq!(mem.find_edge(v1, &Access::Dereference), Some(v3));
}

#[test]
fn test_subst_var_rewrites_array_index_access() {
    let mut mem = BaseMemory::empty();
    let base = AbstractValue::of_raw(1);
    let old_idx = AbstractValue::of_raw(2);
    let new_idx = AbstractValue::of_raw(3);
    let target = AbstractValue::of_raw(4);

    mem.add_edge(
        base,
        Access::ArrayAccess(Typ::void(), old_idx),
        target,
    );
    mem.subst_var(old_idx, new_idx);

    assert_eq!(
        mem.find_edge(base, &Access::ArrayAccess(Typ::void(), new_idx)),
        Some(target)
    );
    assert_eq!(
        mem.find_edge(base, &Access::ArrayAccess(Typ::void(), old_idx)),
        None
    );
}

#[test]
fn test_subst_var_or_unsat_rejects_allocated_root_alias() {
    let mut mem = BaseMemory::empty();
    let old = AbstractValue::of_raw(1);
    let new = AbstractValue::of_raw(2);
    let old_target = AbstractValue::of_raw(3);
    let new_target = AbstractValue::of_raw(4);

    mem.add_edge(old, Access::Dereference, old_target);
    mem.add_edge(new, Access::Dereference, new_target);

    assert!(mem.subst_var_or_unsat(old, new).is_unsat());
}
