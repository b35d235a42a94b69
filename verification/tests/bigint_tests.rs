use prime_patterns::bigint::{BigInt, Cmp};
use prime_patterns::ArithError;

#[test]
fn from_u64_round_trips_through_decimal() {
    let x = BigInt::from_u64(123456789);
    let s = x.to_decimal_string();
    assert_eq!(s, "123456789");
    let y = BigInt::from_decimal_string(&s).unwrap();
    assert!(x.eq_value(&y));
}

#[test]
fn zero_round_trip() {
    let z = BigInt::from_u64(0);
    assert_eq!(z.to_decimal_string(), "0");
    let p = BigInt::from_decimal_string("0").unwrap();
    assert!(p.is_zero());
    assert!(z.eq_value(&p));
}

#[test]
fn multi_limb_round_trip() {
    // 2^128 spans several 32-bit limbs.
    let x = BigInt::from_u64(2).pow(128);
    let s = x.to_decimal_string();
    assert_eq!(s, "340282366920938463463374607431768211456");
    let y = BigInt::from_decimal_string(&s).unwrap();
    assert!(x.eq_value(&y));
}

#[test]
fn parse_accepts_leading_zeros() {
    let x = BigInt::from_decimal_string("007").unwrap();
    assert_eq!(x.to_decimal_string(), "7");
}

#[test]
fn parse_rejects_empty_and_non_digits() {
    assert!(matches!(
        BigInt::from_decimal_string(""),
        Err(ArithError::ParseError)
    ));
    assert!(matches!(
        BigInt::from_decimal_string("12a4"),
        Err(ArithError::ParseError)
    ));
    assert!(matches!(
        BigInt::from_decimal_string("-5"),
        Err(ArithError::ParseError)
    ));
}

#[test]
fn add_carries_across_limbs() {
    let x = BigInt::from_u64(u64::MAX);
    let y = x.add(&BigInt::from_u64(1));
    assert_eq!(y.to_decimal_string(), "18446744073709551616");
}

#[test]
fn subtract_computes_difference() {
    let x = BigInt::from_u64(1000);
    let y = BigInt::from_u64(1);
    let d = x.subtract(&y).unwrap();
    assert_eq!(d.to_u64_checked(), Some(999));
}

#[test]
fn subtract_underflows_when_smaller() {
    let x = BigInt::from_u64(3);
    let y = BigInt::from_u64(5);
    assert!(matches!(x.subtract(&y), Err(ArithError::Underflow)));
}

#[test]
fn decrement_underflows_on_zero() {
    let z = BigInt::from_u64(0);
    assert!(matches!(z.decrement_by_one(), Err(ArithError::Underflow)));
    let one = BigInt::from_u64(1);
    assert!(one.decrement_by_one().unwrap().is_zero());
}

#[test]
fn multiply_matches_native() {
    let x = BigInt::from_u64(123456789);
    let y = BigInt::from_u64(987654321);
    let p = x.multiply(&y);
    assert_eq!(p.to_u64_checked(), Some(123456789u64 * 987654321u64));
}

#[test]
fn pow_repeated_squaring() {
    let two = BigInt::from_u64(2);
    assert_eq!(two.pow(0).to_u64_checked(), Some(1));
    assert_eq!(two.pow(10).to_u64_checked(), Some(1024));
    let ten = BigInt::from_u64(10);
    assert_eq!(ten.pow(3).to_u64_checked(), Some(1000));
}

#[test]
fn div_rem_quotient_and_remainder() {
    let x = BigInt::from_u64(1234567);
    let d = BigInt::from_u64(1000);
    let (q, r) = x.div_rem(&d).unwrap();
    assert_eq!(q.to_u64_checked(), Some(1234));
    assert_eq!(r.to_u64_checked(), Some(567));
}

#[test]
fn div_rem_rejects_zero_divisor() {
    let x = BigInt::from_u64(42);
    let z = BigInt::from_u64(0);
    assert!(matches!(x.div_rem(&z), Err(ArithError::DivisionByZero)));
}

#[test]
fn mod_pow_matches_native() {
    let b = BigInt::from_u64(3);
    let e = BigInt::from_u64(20);
    let m = BigInt::from_u64(1000);
    let r = b.mod_pow(&e, &m).unwrap();
    assert_eq!(r.to_u64_checked(), Some(401));
}

#[test]
fn mod_pow_rejects_zero_modulus() {
    let b = BigInt::from_u64(3);
    let e = BigInt::from_u64(4);
    let z = BigInt::from_u64(0);
    assert!(matches!(b.mod_pow(&e, &z), Err(ArithError::DivisionByZero)));
}

#[test]
fn comparison_is_by_value() {
    let a = BigInt::from_u64(5);
    let b = BigInt::from_u64(7);
    assert!(matches!(a.cmp_with(&b), Cmp::Less));
    assert!(matches!(b.cmp_with(&a), Cmp::Greater));
    assert!(matches!(a.cmp_with(&a.duplicate()), Cmp::Equal));
    let big = BigInt::from_u64(2).pow(100);
    assert!(matches!(a.cmp_with(&big), Cmp::Less));
}

#[test]
fn parity_and_increment() {
    let a = BigInt::from_u64(8);
    assert!(a.is_even());
    let b = a.increment_by_one();
    assert!(!b.is_even());
    assert_eq!(b.to_u64_checked(), Some(9));
}

#[test]
fn to_u64_checked_bounds() {
    let max = BigInt::from_u64(u64::MAX);
    assert_eq!(max.to_u64_checked(), Some(u64::MAX));
    let over = max.add(&BigInt::from_u64(1));
    assert_eq!(over.to_u64_checked(), None);
}
