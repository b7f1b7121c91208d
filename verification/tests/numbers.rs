use beanru::number::Decimal;

#[test]
fn decimals_are_kept_in_canonical_form() {
    // 2.50 and 2.5 are the same number and the same representation.
    let a = Decimal::new(250, 2);
    let b = Decimal::new(25, 1);
    assert_eq!(a, b);
    assert_eq!(a.parts(), (25, 1));
    assert!(a.eq_value(&b));
}

#[test]
fn addition_is_exact() {
    // 0.1 + 0.2 == 0.3, exactly.
    let a = Decimal::new(1, 1);
    let b = Decimal::new(2, 1);
    let r = a.checked_add(&b).unwrap();
    assert_eq!(r.parts(), (3, 1));
    // 1.5 + 2.5 == 4, canonically an integer.
    let c = Decimal::new(15, 1).checked_add(&Decimal::new(25, 1)).unwrap();
    assert_eq!(c.parts(), (4, 0));
}

#[test]
fn addition_reports_overflow_instead_of_rounding() {
    let big = Decimal::new(i128::MAX, 0);
    assert!(big.checked_add(&Decimal::from_int(1)).is_none());
    // A large value at a different scale cannot be aligned either.
    assert!(big.checked_add(&Decimal::new(5, 1)).is_none());
}

#[test]
fn multiplication_is_exact() {
    // 1.5 * 2.5 == 3.75
    let r = Decimal::new(15, 1).checked_mul(&Decimal::new(25, 1)).unwrap();
    assert_eq!(r.parts(), (375, 2));
    // 4 * 0.25 == 1
    let r2 = Decimal::from_int(4).checked_mul(&Decimal::new(25, 2)).unwrap();
    assert_eq!(r2.parts(), (1, 0));
}

#[test]
fn negation_and_signs() {
    let a = Decimal::new(-75, 1);
    assert!(a.is_negative());
    let n = a.negated();
    assert!(n.is_positive());
    assert_eq!(n.parts(), (75, 1));
    assert!(a.abs_value().eq_value(&n));
    assert!(Decimal::from_int(0).is_zero());
}
