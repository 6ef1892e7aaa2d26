use pulse::abstract_value::AbstractValue;
use pulse::access::Access;
use pulse::base_memory::{BaseMemory, Edges};
use pulse::formula::resolve::ValueSet;
use pulse::heap_reach::reachable_from;
use pulse::ordered::Comparison;
use pulse::sil::{Fieldname, QualifiedCppName, Typ, TypeName};
use pulse::value_history::{ValueHistory, ValueWithHistory};

fn field_of(class: &str, name: &str) -> Access {
    Access::FieldAccess(Fieldname::make(
        TypeName::CStruct(QualifiedCppName::from_string(class)),
        name,
    ))
}

fn field(name: &str) -> Access {
    field_of("S", name)
}

fn v(n: i64) -> AbstractValue {
    AbstractValue::of_raw(n)
}

fn plain(n: i64) -> ValueWithHistory {
    ValueWithHistory::new(v(n), ValueHistory::epoch())
}

#[test]
fn what_was_written_is_read_back() {
    let mut mem = BaseMemory::empty();
    mem.add_edge(v(1), field("a"), v(2));
    mem.add_edge(v(1), field("b"), v(3));
    mem.add_edge(v(4), field("a"), v(5));
    mem.add_edge(v(1), field("a"), v(6));
    assert_eq!(mem.find_edge(v(1), &field("a")), Some(v(6)));
    assert_eq!(mem.find_edge(v(1), &field("b")), Some(v(3)));
    assert_eq!(mem.find_edge(v(4), &field("a")), Some(v(5)));
    assert_eq!(mem.find_edge(v(4), &field("b")), None);
    assert!(mem.has_edge(v(4), &field("a")));
    assert!(!mem.has_edge(v(4), &Access::Dereference));
}

#[test]
fn fields_of_the_same_name_share_a_place() {
    let mut edges = Edges::empty();
    edges.add(field_of("S", "x"), v(1));
    edges.add(field_of("T", "x"), v(2));
    assert_eq!(edges.len(), 1);
    assert_eq!(edges.find(&field_of("S", "x")), Some(v(2)));
    assert_eq!(edges.access_at(0), &field_of("S", "x"));
    assert!(matches!(field_of("S", "x").compare(&field_of("T", "x")), Comparison::Equal));
    assert!(matches!(field("x").compare(&Access::Dereference), Comparison::Less));
    let element = Access::ArrayAccess(Typ::void(), v(3));
    assert!(matches!(element.compare(&field("x")), Comparison::Greater));
}

#[test]
fn an_edge_that_takes_the_place_of_a_forgotten_one_is_forgotten() {
    let mut edges = Edges::with_limit(Some(1));
    edges.add(field_of("S", "x"), v(1));
    edges.add(field("a"), v(2));
    edges.add(field_of("T", "x"), v(3));
    assert_eq!(edges.find(&field_of("T", "x")), None);
    edges.add(field_of("T", "x"), v(4));
    assert_eq!(edges.find(&field_of("T", "x")), Some(v(4)));
}

#[test]
fn no_more_is_remembered_than_two_batches() {
    let mut edges = Edges::with_limit(Some(3));
    for i in 0..20 {
        edges.add(Access::ArrayAccess(Typ::void(), v(i)), v(100 + i));
        assert!(edges.len() <= 6);
        assert!(edges.get_new_keys().len() <= 3);
        assert!(edges.get_old_keys().len() <= 3);
        assert_eq!(edges.find(&Access::ArrayAccess(Typ::void(), v(i))), Some(v(100 + i)));
    }
    let mut unbounded = Edges::with_limit(None);
    for i in 0..20 {
        unbounded.add(Access::ArrayAccess(Typ::void(), v(i)), v(100 + i));
    }
    assert_eq!(unbounded.len(), 20);
    assert!(unbounded.get_new_keys().is_empty());
}

#[test]
fn bindings_are_listed_newest_first() {
    let mut edges = Edges::with_limit(Some(2));
    edges.add_with_history(field("a"), plain(1));
    edges.add_with_history(field("b"), plain(2));
    edges.add_with_history(field("c"), plain(3));
    let listed: Vec<i64> = edges.recency_bindings().iter().map(|b| b.1.addr.raw()).collect();
    assert_eq!(listed, vec![3, 2, 1]);
    edges.remove(&field("b"));
    assert_eq!(edges.find(&field("b")), None);
    assert_eq!(edges.find(&field("a")), Some(v(1)));
    let sorted: Vec<i64> = edges.iter().iter().map(|b| b.1.raw()).collect();
    assert_eq!(sorted, vec![1, 3]);
}

#[test]
fn substitution_leaves_no_trace_of_the_old_value() {
    let mut mem = BaseMemory::empty();
    let index = Access::ArrayAccess(Typ::void(), v(1));
    mem.add_edge(v(1), Access::Dereference, v(1));
    mem.add_edge(v(2), index.clone(), v(1));
    mem.add_edge(v(9), field("a"), v(3));
    mem.subst_var(v(1), v(9));
    assert_eq!(mem.find_edge(v(9), &Access::Dereference), Some(v(9)));
    assert_eq!(mem.find_edge(v(9), &field("a")), Some(v(3)));
    assert_eq!(mem.find_edge(v(2), &Access::ArrayAccess(Typ::void(), v(9))), Some(v(9)));
    assert_eq!(mem.find_edge(v(2), &index), None);
    assert!(mem.get_edges(v(1)).is_none());
    let before = mem.len();
    mem.subst_var(v(77), v(78));
    assert_eq!(mem.len(), before);
}

#[test]
fn substitution_that_would_merge_two_allocated_addresses_is_refused() {
    let mut mem = BaseMemory::empty();
    mem.add_edge(v(1), Access::Dereference, v(3));
    assert!(mem.subst_var_or_unsat(v(1), v(2)).is_sat());
    assert_eq!(mem.find_edge(v(2), &Access::Dereference), Some(v(3)));
    assert!(mem.get_edges(v(1)).is_none());
}

#[test]
fn renaming_maps_sources_targets_and_indices() {
    let mut mem = BaseMemory::empty();
    mem.add_edge(v(1), Access::ArrayAccess(Typ::void(), v(2)), v(3));
    assert_eq!(mem.first_mapping_change(|x| x), None);
    assert!(!mem.map_values(|x| x));
    assert_eq!(mem.first_mapping_change(|x| v(x.raw() + 10)), Some((v(1), v(11))));
    assert!(mem.map_values(|x| v(x.raw() + 10)));
    assert_eq!(mem.find_edge(v(11), &Access::ArrayAccess(Typ::void(), v(12))), Some(v(13)));
    let found = mem
        .find_edge_with_history_canonicalized(
            v(11),
            &Access::ArrayAccess(Typ::void(), v(99)),
            |x| if x == v(99) { v(12) } else { x },
        )
        .map(|x| x.addr);
    assert_eq!(found, Some(v(13)));
}

#[test]
fn a_full_union_keeps_the_left_operand() {
    let mut left = Edges::with_limit(Some(2));
    left.add(field("a"), v(1));
    left.add(field("b"), v(2));
    let mut right = Edges::with_limit(Some(2));
    right.add(field("b"), v(20));
    right.add(field("c"), v(30));
    let union = left.union_left_biased(&right);
    assert_eq!(union.find(&field("a")), Some(v(1)));
    assert_eq!(union.find(&field("b")), Some(v(2)));
    assert_eq!(union.find(&field("c")), None);
    let mut unbounded = Edges::with_limit(None);
    unbounded.add(field("b"), v(5));
    let union = unbounded.union_left_biased(&right);
    assert_eq!(union.find(&field("b")), Some(v(5)));
    assert_eq!(union.find(&field("c")), Some(v(30)));
}

#[test]
fn reachable_addresses_follow_the_edges() {
    let mut mem = BaseMemory::empty();
    mem.add_edge(v(1), Access::Dereference, v(2));
    mem.add_edge(v(2), field("next"), v(1));
    mem.add_edge(v(2), field("data"), v(4));
    mem.add_edge(v(5), Access::Dereference, v(6));
    let reached = reachable_from(&mem, v(1));
    let listed: Vec<i64> = (0..reached.len()).map(|i| reached.at(i).raw()).collect();
    assert_eq!(listed, vec![1, 2, 4]);
    let mut keep = ValueSet::new();
    keep.insert(v(2));
    keep.insert(v(6));
    mem.retain_reachable(&keep);
    assert_eq!(mem.len(), 1);
    assert!(mem.is_allocated(v(2)));
}

#[test]
fn setting_no_edges_drops_the_address() {
    let mut mem = BaseMemory::with_limit(Some(4));
    mem.register_address(v(1));
    assert_eq!(mem.len(), 1);
    assert!(!mem.is_allocated(v(1)));
    mem.set_edges(v(1), Edges::empty());
    assert!(mem.is_empty());
    let mut edges = Edges::empty();
    edges.add(field("a"), v(2));
    mem.set_edges(v(3), edges);
    assert_eq!(mem.find_edge(v(3), &field("a")), Some(v(2)));
    mem.remove(v(3));
    assert!(mem.is_empty());
}

#[test]
fn renaming_and_union_keep_within_the_limit() {
    let names = ["a", "b", "c", "d", "e"];
    let mut left = Edges::with_limit(Some(2));
    let mut right = Edges::with_limit(Some(2));
    for (i, name) in names.iter().enumerate() {
        left.add(field(name), v(i as i64));
        right.add(field(name), v(10 + i as i64));
    }
    assert!(left.len() <= 4);
    assert!(left.union_left_biased(&right).len() <= 4);
    left.subst_var(v(4), v(40));
    assert_eq!(left.find(&field("e")), Some(v(40)));
    assert!(left.len() <= 4);
    left.map_values(|x| v(x.raw() + 1));
    assert_eq!(left.find(&field("e")), Some(v(41)));
    assert!(left.len() <= 4);
}

#[test]
fn a_known_first_change_makes_no_difference() {
    let mut first = BaseMemory::empty();
    first.add_edge(v(1), Access::ArrayAccess(Typ::void(), v(2)), v(3));
    first.add_edge(v(4), field("a"), v(5));
    let mut second = first.clone();
    let change = first.first_mapping_change(|x| if x == v(2) { v(20) } else { x });
    assert_eq!(change, Some((v(2), v(20))));
    assert!(first.map_values_after_first_change(change, |x| if x == v(2) { v(20) } else { x }));
    assert!(second.map_values(|x| if x == v(2) { v(20) } else { x }));
    assert_eq!(first, second);
    let index = Access::ArrayAccess(Typ::void(), v(20));
    assert_eq!(first.find_edge(v(1), &index), Some(v(3)));
    assert!(!first.map_values_after_first_change(None, |x| x));
    assert_eq!(first, second);
}

#[test]
fn a_union_loses_no_left_edge() {
    let mut left = Edges::with_limit(Some(2));
    let mut right = Edges::with_limit(Some(2));
    for (i, name) in ["a", "b", "c", "d"].iter().enumerate() {
        left.add(field(name), v(i as i64));
        right.add(field(name), v(10 + i as i64));
    }
    right.add(field("e"), v(30));
    let union = left.union_left_biased(&right);
    for (i, name) in ["a", "b", "c", "d"].iter().enumerate() {
        assert_eq!(union.find(&field(name)), Some(v(i as i64)));
    }
}
