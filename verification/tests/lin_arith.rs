use pulse::abstract_value::AbstractValue;
use pulse::formula::lin_arith::LinArith;
use pulse::ordered::OrdMap;
use pulse::rational::Q;
use pulse::sat_unsat::SatUnsat;

fn coeffs(entries: Vec<(AbstractValue, Q)>) -> OrdMap<AbstractValue, Q> {
    let mut map = OrdMap::new();
    for (v, q) in entries {
        map.insert(v, q);
    }
    map
}

#[test]
fn test_zero() {
    let z = LinArith::zero();
    assert!(z.is_zero());
    assert_eq!(z.get_as_const(), Some(Q::zero()));
}

#[test]
fn test_of_var() {
    let v = AbstractValue::of_raw(1);
    let l = LinArith::of_var(v);
    assert_eq!(l.get_as_var(), Some(v));
    assert!(!l.is_zero());
}

#[test]
fn test_add() {
    let v1 = AbstractValue::of_raw(1);
    let v2 = AbstractValue::of_raw(2);
    let l1 = LinArith::of_var(v1); // v1
    let l2 = LinArith::of_var(v2); // v2
    let sum = l1.add(&l2); // v1 + v2
    assert_eq!(sum.vars.len(), 2);
}

#[test]
fn test_add_cancellation() {
    let v = AbstractValue::of_raw(1);
    let l = LinArith::of_var(v); // v
    let neg = l.neg(); // -v
    let sum = l.add(&neg); // v + (-v) = 0
    assert!(sum.is_zero());
}

#[test]
fn test_solve_eq_zero_trivial() {
    let z = LinArith::zero();
    match z.solve_eq_zero() {
        SatUnsat::Sat(None) => {} // 0 = 0, ok
        other => panic!("expected Sat(None), got {other:?}"),
    }
}

#[test]
fn test_solve_eq_zero_contradiction() {
    let c = LinArith::of_int(5);
    match c.solve_eq_zero() {
        SatUnsat::Unsat => {} // 5 = 0, contradiction
        other => panic!("expected Unsat, got {other:?}"),
    }
}

#[test]
fn test_solve_eq_zero_single_var() {
    // 2x + 6 = 0 → x = -3
    let v = AbstractValue::of_raw(1);
    let l = LinArith {
        constant: Q::from_integer(6),
        vars: coeffs(vec![(v, Q::from_integer(2))]),
    };
    match l.solve_eq_zero() {
        SatUnsat::Sat(Some((x, solution))) => {
            assert_eq!(x, v);
            assert_eq!(solution.get_as_const(), Some(Q::from_integer(-3)));
        }
        other => panic!("expected Sat(Some), got {other:?}"),
    }
}

#[test]
fn test_solve_eq() {
    // x = y + 1 → solve x - y - 1 = 0
    let x = AbstractValue::of_raw(1);
    let y = AbstractValue::of_raw(2);
    let lx = LinArith::of_var(x);
    let ly_plus_1 = LinArith::of_var(y).add(&LinArith::of_int(1));

    match lx.solve_eq(&ly_plus_1) {
        SatUnsat::Sat(Some((solved_var, solution))) => {
            assert_eq!(solved_var, x); // x is simpler (lower id)
                                       // solution should be y + 1
            assert_eq!(solution.get_coefficient(y), Some(&Q::one()));
            assert_eq!(*solution.get_constant_part(), Q::from_integer(1));
        }
        other => panic!("expected Sat(Some), got {other:?}"),
    }
}

#[test]
fn lin_arith_test_subst_var() {
    let x = AbstractValue::of_raw(1);
    let y = AbstractValue::of_raw(2);
    // 2x + 3
    let l = LinArith {
        constant: Q::from_integer(3),
        vars: coeffs(vec![(x, Q::from_integer(2))]),
    };
    // substitute x → y + 1
    let replacement = LinArith::of_var(y).add(&LinArith::of_int(1));
    let result = l.subst_var(x, &replacement);
    // should be 2(y + 1) + 3 = 2y + 5
    assert_eq!(result.get_coefficient(y), Some(&Q::from_integer(2)));
    assert_eq!(*result.get_constant_part(), Q::from_integer(5));
}
