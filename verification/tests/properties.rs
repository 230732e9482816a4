use xensieve::residual_to_ints;
use xensieve::Residual;
use xensieve::Sieve;
use xensieve::SieveError;

#[test]
fn test_residual_periodicity() {
    let r = Residual::new(7, 3);
    for v in -21..21 {
        assert_eq!(r.contains(v), r.contains(v + 7));
    }
}

#[test]
fn test_empty_residual_contains_nothing() {
    let r = Residual::new(0, 9);
    for v in -50..50 {
        assert_eq!(r.contains(v), false);
    }
}

#[test]
fn test_union_commutative_pointwise() {
    let a = Sieve::new("3@1").unwrap();
    let b = Sieve::new("4@2").unwrap();
    let ab = a.union(&b);
    let ba = b.union(&a);
    for v in -30..30 {
        assert_eq!(ab.contains(v), ba.contains(v));
    }
}

#[test]
fn test_intersect_commutative_pointwise() {
    let a = Sieve::new("6@1").unwrap();
    let b = Sieve::new("4@3").unwrap();
    let ab = a.intersect(&b);
    let ba = b.intersect(&a);
    for v in -30..30 {
        assert_eq!(ab.contains(v), ba.contains(v));
    }
}

#[test]
fn test_symmetric_difference_commutative_pointwise() {
    let a = Sieve::new("2@0").unwrap();
    let b = Sieve::new("3@0").unwrap();
    let ab = a.symmetric_difference(&b);
    let ba = b.symmetric_difference(&a);
    for v in -30..30 {
        assert_eq!(ab.contains(v), ba.contains(v));
    }
}

#[test]
fn test_double_negation_pointwise() {
    let a = Sieve::new("5@2|3@0").unwrap();
    let nna = a.invert().invert();
    for v in -30..30 {
        assert_eq!(a.contains(v), nna.contains(v));
    }
}

#[test]
fn test_de_morgan_pointwise() {
    let a = Sieve::new("4@1").unwrap();
    let b = Sieve::new("6@5").unwrap();
    let lhs = a.union(&b).invert();
    let rhs = a.invert().intersect(&b.invert());
    for v in -40..40 {
        assert_eq!(lhs.contains(v), rhs.contains(v));
    }
}

//------------------------------------------------------------------------------

#[test]
fn test_crt_intersection_examples() {
    // the worked examples of the generalized-CRT combination
    assert_eq!(Residual::new(4, 0).intersect(&Residual::new(3, 0)).to_text(), "12@0");
    assert_eq!(Residual::new(4, 0).intersect(&Residual::new(3, 1)).to_text(), "12@4");
    assert_eq!(Residual::new(5, 2).intersect(&Residual::new(10, 3)).to_text(), "0@0");
}

#[test]
fn test_crt_intersection_absolute_span() {
    // the documented absolute-span behavior: with the larger shift on the
    // left, the formula still uses the absolute difference of the shifts
    assert_eq!(Residual::new(3, 1).intersect(&Residual::new(4, 0)).to_text(), "12@10");
}

//------------------------------------------------------------------------------

#[test]
fn test_sieve_new_unsupported_char() {
    assert_eq!(Sieve::new("10@0 + 10@9").unwrap_err(), SieveError::UnsupportedChar('+'));
}

#[test]
fn test_sieve_new_invalid_residual() {
    assert_eq!(Sieve::new("3@@1").unwrap_err(), SieveError::InvalidResidual);
    assert_eq!(Sieve::new("(").unwrap_err(), SieveError::InvalidResidual);
}

#[test]
fn test_sieve_new_missing_operand() {
    assert_eq!(Sieve::new("!").unwrap_err(), SieveError::MissingOperand);
    assert_eq!(Sieve::new("3@0 &").unwrap_err(), SieveError::MissingOperand);
}

#[test]
fn test_sieve_new_invalid_expression() {
    assert_eq!(Sieve::new("").unwrap_err(), SieveError::InvalidExpression);
    assert_eq!(Sieve::new("(3@0)(4@0)").unwrap_err(), SieveError::InvalidExpression);
}

//------------------------------------------------------------------------------

#[test]
fn test_residual_to_ints_u64_bounds() {
    assert_eq!(
        residual_to_ints("18446744073709551615@0").unwrap(),
        (18446744073709551615, 0)
    );
    assert!(residual_to_ints("18446744073709551616@0").is_err());
}

#[test]
fn test_iter_value_exhausted_stays_none() {
    let s = Sieve::new("2@0").unwrap();
    let mut it = s.iter_value(vec![1, 2, 3]);
    assert_eq!(it.next(), Some(2));
    assert_eq!(it.next(), None);
    assert_eq!(it.next(), None);
}

#[test]
fn test_iter_interval_single_value_emits_nothing() {
    let s = Sieve::new("5@0").unwrap();
    let mut it = s.iter_interval((0..5).collect());
    assert_eq!(it.next(), None);
}

#[test]
fn test_iter_state_empty_source() {
    let s = Sieve::new("5@0").unwrap();
    let mut it = s.iter_state(Vec::new());
    assert_eq!(it.next(), None);
}
