use polyfill_fill::decimal::{checked_sum, Decimal, MAX_MANTISSA, MAX_SCALE};

fn parts(d: Decimal) -> (i128, u32) {
    (d.mantissa(), d.scale())
}

fn largest() -> Decimal {
    Decimal::try_from_i128_with_scale(MAX_MANTISSA, 0).unwrap()
}

#[test]
fn equal_numbers_at_different_scales() {
    assert!(Decimal::new(10, 1) == Decimal::new(1, 0));
    assert!(Decimal::new(10, 1) != Decimal::new(11, 1));
    assert!(Decimal::new(-5, 1) != Decimal::new(5, 1));
    assert!(Decimal::new(0, 3) == Decimal::zero());
}

#[test]
fn bounds_of_the_representation() {
    assert_eq!(parts(largest()), (79_228_162_514_264_337_593_543_950_335, 0));
    assert!(Decimal::try_from_i128_with_scale(-MAX_MANTISSA, MAX_SCALE).is_some());
    assert!(Decimal::try_from_i128_with_scale(MAX_MANTISSA + 1, 0).is_none());
    assert!(Decimal::try_from_i128_with_scale(-MAX_MANTISSA - 1, 0).is_none());
    assert!(Decimal::try_from_i128_with_scale(1, MAX_SCALE + 1).is_none());
}

#[test]
fn whole_numbers_and_zero() {
    assert_eq!(parts(Decimal::from_u32(10_000)), (10_000, 0));
    assert!(Decimal::new(0, 5).is_zero());
    assert!(!Decimal::new(-1, 28).is_zero());
}

#[test]
fn minimum_prefers_the_first_of_equals() {
    assert_eq!(parts(Decimal::new(10, 1).min(Decimal::new(1, 0))), (10, 1));
    assert_eq!(parts(Decimal::new(1, 0).min(Decimal::new(10, 1))), (1, 0));
    assert_eq!(parts(Decimal::new(5, 1).min(Decimal::new(49, 2))), (49, 2));
    assert_eq!(parts(Decimal::new(-5, 1).min(Decimal::new(1, 2))), (-5, 1));
}

#[test]
fn comparison_of_numbers_too_large_to_align() {
    let tiny = Decimal::new(1, 28);
    assert_eq!(parts(largest().min(tiny)), (1, 28));
    assert_eq!(parts(tiny.min(largest())), (1, 28));
    assert!(largest() != tiny);
}

#[test]
fn sums_keep_the_larger_scale() {
    let numbers = vec![Decimal::new(5, 1), Decimal::new(25, 2), Decimal::new(1, 0)];
    assert_eq!(parts(checked_sum(&numbers).unwrap()), (175, 2));
    let mixed = vec![Decimal::new(5, 1), Decimal::new(-75, 2)];
    assert_eq!(parts(checked_sum(&mixed).unwrap()), (-25, 2));
}

#[test]
fn sums_with_zeros() {
    assert_eq!(parts(checked_sum(&vec![]).unwrap()), (0, 0));
    assert_eq!(parts(checked_sum(&vec![Decimal::new(0, 2)]).unwrap()), (0, 2));
    let numbers = vec![Decimal::new(0, 2), Decimal::new(1, 0), Decimal::new(0, 5)];
    assert_eq!(parts(checked_sum(&numbers).unwrap()), (1, 0));
    let cancelled = vec![Decimal::new(15, 1), Decimal::new(-150, 2)];
    assert_eq!(parts(checked_sum(&cancelled).unwrap()), (0, 2));
}

#[test]
fn sums_that_overflow() {
    assert!(checked_sum(&vec![largest(), Decimal::new(1, 0)]).is_none());
    assert!(checked_sum(&vec![largest(), Decimal::new(-1, 0)]).is_some());
}

#[test]
fn sums_in_any_order() {
    let forth = vec![Decimal::new(1, 3), Decimal::new(2, 0), Decimal::new(345, 1)];
    let back = vec![Decimal::new(345, 1), Decimal::new(2, 0), Decimal::new(1, 3)];
    assert_eq!(parts(checked_sum(&forth).unwrap()), (36_501, 3));
    assert_eq!(parts(checked_sum(&back).unwrap()), (36_501, 3));
}
