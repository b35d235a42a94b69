use prime_patterns::bigint::BigInt;
use prime_patterns::patterns::{ascending_descending_pattern, mersenne,
    palindrome_from_prefix, palindrome_from_prefix_odd, perfect_from_mersenne_exponent,
    repunit};
use prime_patterns::ArithError;

#[test]
fn pattern_for_three_is_12321() {
    let p = ascending_descending_pattern(3);
    assert_eq!(p.to_decimal_string(), "12321");
}

#[test]
fn pattern_small_cases() {
    assert_eq!(ascending_descending_pattern(1).to_decimal_string(), "1");
    assert_eq!(ascending_descending_pattern(2).to_decimal_string(), "121");
    assert_eq!(
        ascending_descending_pattern(11).to_decimal_string(),
        "123456789101110987654321"
    );
}

#[test]
fn repunit_is_repeated_ones() {
    assert_eq!(repunit(1).to_decimal_string(), "1");
    assert_eq!(repunit(5).to_decimal_string(), "11111");
    assert_eq!(repunit(0).to_decimal_string(), "0");
}

#[test]
fn repunit_times_nine_plus_one_is_power_of_ten() {
    let nine = BigInt::from_u64(9);
    let one = BigInt::from_u64(1);
    let ten = BigInt::from_u64(10);
    for n in 0..25u32 {
        let lhs = repunit(n).multiply(&nine).add(&one);
        let rhs = ten.pow(n as u64);
        assert!(lhs.eq_value(&rhs), "identity failed at {}", n);
    }
}

#[test]
fn mersenne_values_and_parity() {
    assert_eq!(mersenne(0).to_u64_checked(), Some(0));
    assert_eq!(mersenne(5).to_u64_checked(), Some(31));
    for p in 1..40u32 {
        assert!(!mersenne(p).is_even(), "mersenne({}) should be odd", p);
    }
}

#[test]
fn perfect_numbers_from_small_exponents() {
    assert_eq!(perfect_from_mersenne_exponent(2).to_u64_checked(), Some(6));
    assert_eq!(perfect_from_mersenne_exponent(3).to_u64_checked(), Some(28));
    assert_eq!(perfect_from_mersenne_exponent(5).to_u64_checked(), Some(496));
}

#[test]
fn palindrome_mirrors_prefix() {
    let even = palindrome_from_prefix("123").unwrap();
    assert_eq!(even.to_decimal_string(), "123321");
    let odd = palindrome_from_prefix_odd("123").unwrap();
    assert_eq!(odd.to_decimal_string(), "12321");
    let single = palindrome_from_prefix_odd("7").unwrap();
    assert_eq!(single.to_decimal_string(), "7");
}

#[test]
fn palindrome_rejects_bad_prefixes() {
    assert!(matches!(
        palindrome_from_prefix(""),
        Err(ArithError::ParseError)
    ));
    assert!(matches!(
        palindrome_from_prefix("12x"),
        Err(ArithError::ParseError)
    ));
    assert!(matches!(
        palindrome_from_prefix_odd("9 9"),
        Err(ArithError::ParseError)
    ));
}
