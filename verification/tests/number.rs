use calc_engine::number::{Number, MANT_MAX};

fn num(neg: bool, mant: u64, scale: u8) -> Number {
    Number::from_parts(neg, mant, scale).unwrap()
}

#[test]
fn from_parts_normalizes() {
    assert_eq!(num(false, 1510, 2), num(false, 151, 1));
    assert_eq!(num(false, 1500, 2), num(false, 15, 0));
    assert_eq!(num(false, 1000, 3), num(false, 1, 0));
    assert_eq!(num(true, 0, 5), Number::Finite { neg: true, mant: 0, scale: 0 });
    assert!(Number::from_parts(false, 1, 10).is_none());
    assert!(Number::from_parts(false, MANT_MAX + 1, 0).is_none());
}

#[test]
fn decimal_addition_is_exact() {
    // One tenth plus two tenths is exactly three tenths here.
    assert_eq!(num(false, 1, 1).plus(num(false, 2, 1)), num(false, 3, 1));
    assert_eq!(num(false, 15, 1).plus(num(false, 25, 1)), num(false, 4, 0));
}

#[test]
fn sum_of_opposites_is_positive_zero() {
    let r = num(true, 5, 0).plus(num(false, 5, 0));
    assert_eq!(r, Number::Finite { neg: false, mant: 0, scale: 0 });
}

#[test]
fn subtraction_crosses_zero() {
    assert_eq!(num(false, 3, 0).minus(num(false, 5, 0)), num(true, 2, 0));
}

#[test]
fn multiplication_is_exact_within_the_grid() {
    assert_eq!(num(false, 12, 1).times(num(false, 12, 1)), num(false, 144, 2));
    assert_eq!(num(true, 3, 0).times(num(false, 2, 0)), num(true, 6, 0));
}

#[test]
fn multiplication_truncates_past_the_grid() {
    // 10^-7 squared is 10^-14, below the ninth fractional digit: it
    // truncates to a (positive) zero.
    let tiny = num(false, 1, 7);
    assert_eq!(tiny.times(tiny), num(false, 0, 0));
}

#[test]
fn multiplication_overflow_is_infinite() {
    let big = num(false, MANT_MAX, 0);
    assert!(matches!(big.times(big), Number::Infinite { neg: false }));
    assert!(matches!(big.times(big.negated()), Number::Infinite { neg: true }));
}

#[test]
fn addition_overflow_is_infinite() {
    let big = num(false, MANT_MAX, 0);
    assert!(matches!(big.plus(big), Number::Infinite { neg: false }));
}

#[test]
fn division_truncates_toward_zero() {
    assert_eq!(num(false, 1, 0).div_by(num(false, 3, 0)), num(false, 333_333_333, 9));
    assert_eq!(num(false, 10, 0).div_by(num(false, 4, 0)), num(false, 25, 1));
}

#[test]
fn division_by_zero_follows_the_float_rules() {
    assert!(matches!(num(false, 1, 0).div_by(num(false, 0, 0)), Number::Infinite { neg: false }));
    assert!(matches!(num(true, 1, 0).div_by(num(false, 0, 0)), Number::Infinite { neg: true }));
    assert!(matches!(num(false, 0, 0).div_by(num(false, 0, 0)), Number::NaN));
}

#[test]
fn division_by_infinity_is_signed_zero() {
    let r = num(false, 7, 0).div_by(Number::Infinite { neg: true });
    assert_eq!(r, Number::Finite { neg: true, mant: 0, scale: 0 });
}

#[test]
fn square_root_truncates() {
    assert_eq!(num(false, 9, 0).square_root(), num(false, 3, 0));
    assert_eq!(num(false, 2, 0).square_root(), num(false, 1_414_213_562, 9));
    assert_eq!(num(false, 225, 2).square_root(), num(false, 15, 1));
}

#[test]
fn square_root_of_negative_is_nan() {
    assert!(matches!(num(true, 4, 0).square_root(), Number::NaN));
    assert!(matches!(Number::Infinite { neg: true }.square_root(), Number::NaN));
}

#[test]
fn square_root_keeps_a_signed_zero() {
    let minus_zero = num(true, 0, 0);
    assert_eq!(minus_zero.square_root(), minus_zero);
}

#[test]
fn negation_flips_the_sign_only() {
    assert_eq!(num(false, 5, 0).negated(), num(true, 5, 0));
    assert_eq!(num(false, 0, 0).negated(), num(true, 0, 0));
    assert!(matches!(Number::NaN.negated(), Number::NaN));
}

#[test]
fn nan_spreads_through_arithmetic() {
    let n = Number::NaN;
    assert!(matches!(n.plus(num(false, 1, 0)), Number::NaN));
    assert!(matches!(num(false, 1, 0).times(n), Number::NaN));
    assert!(matches!(n.div_by(n), Number::NaN));
}

#[test]
fn opposite_infinities_cancel_to_nan() {
    let inf = Number::Infinite { neg: false };
    assert!(matches!(inf.plus(Number::Infinite { neg: true }), Number::NaN));
    assert!(matches!(inf.plus(inf), Number::Infinite { neg: false }));
    assert!(matches!(inf.times(num(false, 0, 0)), Number::NaN));
    assert!(matches!(inf.div_by(inf), Number::NaN));
}
