use pulse::attribute::{Allocator, Attribute, Attributes};
use pulse::invalidation::Invalidation;
use pulse::sil::{IntLit, Location, SourceFile};
use pulse::value_history::ValueHistory;

#[test]
fn test_attributes_basic() {
    let mut attrs = Attributes::empty();
    assert!(attrs.is_empty());

    attrs.add(Attribute::Initialized);
    assert!(!attrs.is_empty());
    assert!(attrs.is_initialized());
    assert!(!attrs.is_allocated());
}

#[test]
fn test_get_invalid() {
    let mut attrs = Attributes::empty();
    assert!(attrs.get_invalid().is_none());

    attrs.add(Attribute::Invalid(
        Invalidation::ConstantDereference(IntLit::zero()),
        ValueHistory::invalidated(
            Invalidation::ConstantDereference(IntLit::zero()),
            Location::dummy(),
        ),
    ));
    let (inv, _loc) = attrs.get_invalid().unwrap();
    assert!(inv.is_null_deref());
}

#[test]
fn test_multiple_attributes() {
    let mut attrs = Attributes::empty();
    attrs.add(Attribute::Initialized);
    attrs.add(Attribute::Allocated(Allocator::CMalloc, Location::dummy()));
    attrs.add(Attribute::WrittenTo(1, Location::dummy()));

    assert!(attrs.is_initialized());
    assert!(attrs.is_allocated());
    assert_eq!(attrs.iter().len(), 3);
}

#[test]
fn test_distinct_invalid_attributes_are_preserved() {
    let mut attrs = Attributes::empty();
    let loc1 = Location {
        file: SourceFile::new("a.c"),
        line: 10,
        col: 1,
        macro_file_opt: None,
        macro_line: -1,
    };
    let loc2 = Location {
        file: SourceFile::new("a.c"),
        line: 20,
        col: 1,
        macro_file_opt: None,
        macro_line: -1,
    };

    attrs.add(Attribute::Invalid(
        Invalidation::ConstantDereference(IntLit::zero()),
        ValueHistory::invalidated(Invalidation::ConstantDereference(IntLit::zero()), loc1),
    ));
    attrs.add(Attribute::Invalid(
        Invalidation::ConstantDereference(IntLit::zero()),
        ValueHistory::invalidated(Invalidation::ConstantDereference(IntLit::zero()), loc2),
    ));

    let invalid_count = attrs
        .iter()
        .into_iter()
        .filter(|attr| matches!(attr, Attribute::Invalid(_, _)))
        .count();
    assert_eq!(invalid_count, 2);
}
