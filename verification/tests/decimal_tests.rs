use dexter_claim::decimal::{Decimal, ATTO_PER_UNIT};

#[test]
fn checked_arithmetic() {
    let a = Decimal::from_atto(5 * ATTO_PER_UNIT);
    let b = Decimal::from_atto(3 * ATTO_PER_UNIT);
    assert_eq!(a.checked_add(b).unwrap().atto(), 8 * ATTO_PER_UNIT);
    assert_eq!(a.checked_sub(b).unwrap().atto(), 2 * ATTO_PER_UNIT);
    assert_eq!(a.min(b), b);
    assert_eq!(b.min(a), b);
    assert!(a.is_positive());
    assert!(!a.is_negative());
    assert!(Decimal::zero().is_zero());
    assert!(b.lt(&a));
    assert!(b.le(&a));
    assert!(a.le(&a));
}

#[test]
fn checked_arithmetic_fails_loudly_at_the_edges() {
    let max = Decimal::from_atto(i128::MAX);
    let one = Decimal::from_atto(1);
    assert!(max.checked_add(one).is_none());
    let min = Decimal::from_atto(i128::MIN);
    assert!(min.checked_sub(one).is_none());
    assert!(max.checked_add(Decimal::zero()).is_some());
}
