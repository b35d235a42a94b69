use prime_patterns::bigint::BigInt;
use prime_patterns::engine::PrimalityEngine;
use prime_patterns::oracle::SmallPrimeOracle;
use prime_patterns::patterns::mersenne;

fn trial_division_is_prime(n: u64) -> bool {
    if n < 2 {
        return false;
    }
    let mut d = 2u64;
    while d * d <= n {
        if n % d == 0 {
            return false;
        }
        d += 1;
    }
    true
}

#[test]
fn oracle_matches_trial_division() {
    for n in 0..2000u64 {
        assert_eq!(
            SmallPrimeOracle::is_prime(n),
            trial_division_is_prime(n),
            "oracle disagreed at {}",
            n
        );
    }
}

#[test]
fn oracle_known_values() {
    assert!(!SmallPrimeOracle::is_prime(0));
    assert!(!SmallPrimeOracle::is_prime(1));
    assert!(SmallPrimeOracle::is_prime(2));
    assert!(SmallPrimeOracle::is_prime(3));
    assert!(!SmallPrimeOracle::is_prime(4));
    // Carmichael number: composite despite passing many Fermat tests.
    assert!(!SmallPrimeOracle::is_prime(561));
    assert!(SmallPrimeOracle::is_prime(1_000_003));
    assert!(SmallPrimeOracle::is_prime(2_305_843_009_213_693_951)); // 2^61 - 1
}

#[test]
fn engine_matches_oracle_in_native_range() {
    let samples: [u64; 12] = [0, 1, 2, 3, 4, 97, 561, 1024, 65537, 1_000_003, 4_294_967_291, u64::MAX];
    for &n in samples.iter() {
        let b = BigInt::from_u64(n);
        for seed in [1u64, 99u64] {
            assert_eq!(
                PrimalityEngine::decide(&b, 20, seed),
                SmallPrimeOracle::is_prime(n),
                "engine disagreed with oracle at {}",
                n
            );
        }
    }
}

#[test]
fn engine_accepts_known_large_prime() {
    // 2^127 - 1 is a Mersenne prime; it exceeds the native range.
    let m = mersenne(127);
    for seed in [1u64, 2, 3] {
        assert!(PrimalityEngine::decide(&m, 5, seed));
    }
    assert!(PrimalityEngine::decide_default(&m, 42));
}

#[test]
fn engine_rejects_large_composite() {
    // (2^61 - 1) * (2^89 - 1): a 150-bit composite with no small factors.
    let c = mersenne(61).multiply(&mersenne(89));
    for seed in [1u64, 2, 3, 42] {
        assert!(!PrimalityEngine::decide(&c, 20, seed));
    }
}

#[test]
fn engine_rejects_large_even_and_smooth_values() {
    // 2^70: even, caught by trial division.
    let even = BigInt::from_u64(2).pow(70);
    assert!(!PrimalityEngine::decide(&even, 20, 7));
    // 3^50: divisible by three.
    let smooth = BigInt::from_u64(3).pow(50);
    assert!(!PrimalityEngine::decide(&smooth, 20, 7));
}
