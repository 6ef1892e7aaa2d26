use pulse::abstract_value::AbstractValue;
use pulse::formula::atom::Atom;
use pulse::formula::term::Term;

#[test]
fn test_as_const_folds_nested_constant_terms() {
    assert_eq!(
        Term::Add(Box::new(Term::Const(0)), Box::new(Term::Const(1))).as_const(),
        Some(1)
    );
    assert_eq!(
        Term::Sub(
            Box::new(Term::Const(5)),
            Box::new(Term::Add(
                Box::new(Term::Const(2)),
                Box::new(Term::Const(1))
            )),
        )
        .as_const(),
        Some(2)
    );
    assert_eq!(
        Term::Not(Box::new(Term::Sub(
            Box::new(Term::Const(1)),
            Box::new(Term::Const(1)),
        )))
        .as_const(),
        Some(1)
    );
}

#[test]
fn test_negate() {
    let v1 = Term::var(AbstractValue::of_raw(1));
    let v2 = Term::var(AbstractValue::of_raw(2));

    let eq = Atom::Equal(v1.clone(), v2.clone());
    assert!(matches!(eq.negate(), Atom::NotEqual(_, _)));

    let lt = Atom::LessThan(v1.clone(), v2.clone());
    // !(a < b) = b <= a
    assert!(matches!(lt.negate(), Atom::LessEqual(_, _)));
}

#[test]
fn test_trivially_true() {
    let c5 = Term::Const(5);
    let c10 = Term::Const(10);

    assert_eq!(
        Atom::Equal(c5.clone(), c5.clone()).is_trivially_true(),
        Some(true)
    );
    assert_eq!(
        Atom::Equal(c5.clone(), c10.clone()).is_trivially_true(),
        Some(false)
    );
    assert_eq!(
        Atom::LessThan(c5.clone(), c10.clone()).is_trivially_true(),
        Some(true)
    );

    // Non-constant atoms are unknown
    let v = Term::var(AbstractValue::of_raw(1));
    assert_eq!(Atom::Equal(v, c5).is_trivially_true(), None);
}
