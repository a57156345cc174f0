use rustfst::semirings::{BooleanWeight, Semiring, TropicalWeight};

#[test]
fn test_boolean_weight() {
    let b_true = BooleanWeight::new(true);
    let b_false = BooleanWeight::new(false);

    // Test plus
    assert_eq!(b_true.plus(&b_true), b_true);
    assert_eq!(b_true.plus(&b_false), b_true);
    assert_eq!(b_false.plus(&b_true), b_true);
    assert_eq!(b_false.plus(&b_false), b_false);

    // Test times
    assert_eq!(b_true.times(&b_true), b_true);
    assert_eq!(b_true.times(&b_false), b_false);
    assert_eq!(b_false.times(&b_true), b_false);
    assert_eq!(b_false.times(&b_false), b_false);
}

#[test]
fn test_boolean_weight_sum() {
    let b_true = BooleanWeight::new(true);
    let b_false = BooleanWeight::new(false);

    assert_eq!(b_true.plus(&b_false), b_true.clone() + b_false.clone());
    assert_eq!(b_true.times(&b_false), b_true * b_false);
}

#[test]
fn boolean_identities_and_closure() {
    assert_eq!(BooleanWeight::zero(), BooleanWeight::new(false));
    assert_eq!(BooleanWeight::one(), BooleanWeight::new(true));
    assert!(BooleanWeight::zero().is_zero());
    assert!(!BooleanWeight::one().is_zero());
    assert_eq!(BooleanWeight::new(false).closure(), BooleanWeight::new(true));
    let mut w = BooleanWeight::new(false);
    w.set_value(true);
    assert!(w.value());
}

#[test]
fn tropical_min_plus() {
    let a = TropicalWeight::new(3);
    let b = TropicalWeight::new(5);
    assert_eq!(a.plus(&b), TropicalWeight::new(3));
    assert_eq!(b.plus(&a), TropicalWeight::new(3));
    assert_eq!(a.times(&b), TropicalWeight::new(8));
    assert_eq!(a.plus(&TropicalWeight::zero()), a);
    assert_eq!(a.times(&TropicalWeight::one()), a);
    assert_eq!(a.times(&TropicalWeight::zero()), TropicalWeight::zero());
    assert!(TropicalWeight::infinity().is_zero());
}

#[test]
fn tropical_times_saturates_to_infinity() {
    let big = TropicalWeight::new(u32::MAX);
    assert_eq!(big.times(&TropicalWeight::new(1)), TropicalWeight::infinity());
    assert_eq!(big.times(&TropicalWeight::new(0)), big);
    assert_eq!(big.times(&TropicalWeight::new(1)).value(), None);
}
