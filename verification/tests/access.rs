use pulse::abstract_value::AbstractValue;
use pulse::access::Access;
use pulse::sil::{Fieldname, QualifiedCppName, Typ, TypeName};

#[test]
fn test_access_display() {
    let field = Access::FieldAccess(Fieldname::make(
        TypeName::CStruct(QualifiedCppName::from_string("S")),
        "x",
    ));
    assert!(field.to_string().contains("x"));
    assert_eq!(Access::Dereference.to_string(), "*");
}

#[test]
fn test_canonicalize_field_unchanged() {
    let field = Access::FieldAccess(Fieldname::make(
        TypeName::CStruct(QualifiedCppName::from_string("S")),
        "x",
    ));
    let canon = field.canonicalize(|v| v);
    assert_eq!(field, canon);
}

#[test]
fn test_canonicalize_array_replaces_index() {
    let v1 = AbstractValue::of_raw(1);
    let v2 = AbstractValue::of_raw(2);
    let arr = Access::ArrayAccess(Typ::void(), v1);
    let canon = arr.canonicalize(|_| v2);
    assert_eq!(canon, Access::ArrayAccess(Typ::void(), v2));
}
