use prime_patterns::problems::{find_palindromic_probable_prime, find_pattern_prime,
    goldbach_pair, mersenne_prime_exponents, perfect_number_from_exponent,
    primes_in_square_interval, repunit_prime_exponents};

#[test]
fn goldbach_pair_for_twenty() {
    assert_eq!(goldbach_pair(20), Some((3, 17)));
}

#[test]
fn goldbach_rejects_odd_and_small_inputs() {
    assert_eq!(goldbach_pair(7), None);
    assert_eq!(goldbach_pair(2), None);
    assert_eq!(goldbach_pair(0), None);
}

#[test]
fn goldbach_more_values() {
    assert_eq!(goldbach_pair(4), Some((2, 2)));
    assert_eq!(goldbach_pair(100), Some((3, 97)));
}

#[test]
fn first_ten_primes_between_squares() {
    let primes = primes_in_square_interval(10, 20);
    assert_eq!(primes, vec![101, 103, 107, 109, 113, 127, 131, 137, 139, 149]);
}

#[test]
fn primes_between_squares_short_interval() {
    // Between 4 and 25 there are fewer than ten primes.
    let primes = primes_in_square_interval(2, 5);
    assert_eq!(primes, vec![5, 7, 11, 13, 17, 19, 23]);
    assert_eq!(primes_in_square_interval(5, 5), Vec::<u64>::new());
}

#[test]
fn mersenne_prime_exponents_up_to_31() {
    // Every Mersenne number for these exponents fits the native range, so
    // the result is exact and independent of the seed.
    let found = mersenne_prime_exponents(2, 31, 20, 12345);
    assert_eq!(found, vec![2, 3, 5, 7, 13, 17, 19, 31]);
}

#[test]
fn repunit_prime_exponents_up_to_20() {
    // R_2 = 11 and R_19 are the only repunit primes with a prime index in
    // this range; both fit the native range, so the answer is exact.
    let found = repunit_prime_exponents(20, 20, 7);
    assert_eq!(found, vec![2, 19]);
}

#[test]
fn palindromic_prime_with_odd_center() {
    // Searching from 10 with an odd center finds 101 at once.
    let found = find_palindromic_probable_prime(2, true, 20, 5, 1000).unwrap();
    assert_eq!(found.to_decimal_string(), "101");
}

#[test]
fn palindromic_single_digit_even() {
    // Searching from 1 with even mirroring finds 11.
    let found = find_palindromic_probable_prime(1, false, 20, 5, 1000).unwrap();
    assert_eq!(found.to_decimal_string(), "11");
}

#[test]
fn even_palindromes_of_two_digit_prefixes_are_composite() {
    // Every even-length palindrome is divisible by 11, so the search from
    // prefix 10 finds nothing.
    let found = find_palindromic_probable_prime(2, false, 20, 3, 50);
    assert!(found.is_none());
}

#[test]
fn perfect_number_for_prime_mersenne_exponents() {
    let p5 = perfect_number_from_exponent(5, 20, 1).unwrap();
    assert_eq!(p5.to_decimal_string(), "496");
    let p7 = perfect_number_from_exponent(7, 20, 1).unwrap();
    assert_eq!(p7.to_decimal_string(), "8128");
    assert!(perfect_number_from_exponent(4, 20, 1).is_none());
    assert!(perfect_number_from_exponent(11, 20, 1).is_none());
}

#[test]
fn pattern_search_outside_band_finds_nothing() {
    // The searched band starts at index 1000, so a scan below it is empty.
    assert!(find_pattern_prime(10, 500, 5, 1).is_none());
}
