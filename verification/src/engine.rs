use vstd::prelude::*;
use vstd::arithmetic::power::*;
use vstd::arithmetic::power2::*;
use vstd::arithmetic::div_mod::*;
use crate::bigint::BigInt;
use crate::oracle::{SmallPrimeOracle, is_prime_nat};

verus! {

/// Largest candidate used during the trial-division stage.
pub const TRIAL_BOUND: u64 = 256;

/// Default number of Miller-Rabin rounds.
pub const DEFAULT_ROUNDS: u32 = 20;

/// The odd factor of `m`, after all powers of two are removed.
pub open spec fn odd_part(m: nat) -> nat
    decreases m,
{
    if m == 0 {
        0
    } else if m % 2 == 1 {
        m
    } else {
        odd_part(m / 2)
    }
}

/// The number of factors of two in `m`.
pub open spec fn two_exponent(m: nat) -> nat
    decreases m,
{
    if m == 0 {
        0
    } else if m % 2 == 1 {
        0
    } else {
        two_exponent(m / 2) + 1
    }
}

/// One step of the base-drawing linear congruential generator.
pub open spec fn rng_next(s: u64) -> u64 {
    (((s % 0x8000_0000) * 1103515245 + 12345) % 0x8000_0000) as u64
}

/// The generator state after `k` steps from `seed`.
pub open spec fn rng_state(seed: u64, k: nat) -> u64
    decreases k,
{
    if k == 0 {
        seed
    } else {
        rng_next(rng_state(seed, (k - 1) as nat))
    }
}

/// The witness base drawn for round `k`.
pub open spec fn mr_base(seed: u64, k: nat) -> nat {
    (2 + rng_state(seed, k + 1)) as nat
}

/// The strong-pseudoprime round condition: writing `n - 1 = 2^s * d` with
/// `d` odd, base `a` passes iff `a^d == 1 (mod n)` or `a^(2^i * d) == n - 1
/// (mod n)` for some `i < s`.
pub open spec fn mr_round_passes(n: nat, a: nat) -> bool {
    let d = odd_part((n - 1) as nat);
    let s = two_exponent((n - 1) as nat);
    pow(a as int, d) % (n as int) == 1 || exists|i: nat|
        i < s && pow(a as int, pow2(i) * d) % (n as int) == n - 1
}

/// Some candidate up to `TRIAL_BOUND` divides `v`.
pub open spec fn has_small_divisor(v: nat) -> bool {
    exists|d: nat| 2 <= d <= TRIAL_BOUND && #[trigger] (v % d) == 0
}

/// Every round up to `rounds` passes for `v` with the bases drawn from `seed`.
pub open spec fn all_rounds_pass(v: nat, rounds: nat, seed: u64) -> bool {
    forall|k: nat| k < rounds ==> mr_round_passes(v, mr_base(seed, k))
}

/// The exact result of the primality decision procedure: an exact answer in
/// the native range, and trial division followed by the strong-pseudoprime
/// rounds above it.
pub open spec fn decide_spec(v: nat, rounds: nat, seed: u64) -> bool {
    if v <= u64::MAX {
        is_prime_nat(v)
    } else {
        !has_small_divisor(v) && all_rounds_pass(v, rounds, seed)
    }
}

fn rng_step(s: u64) -> (r: u64)
    ensures
        r == rng_next(s),
        r < 0x8000_0000,
{
    ((s % 0x8000_0000) * 1103515245 + 12345) % 0x8000_0000
}

/// Removing `s` factors of two from an odd `d` recovers `d` and `s`.
proof fn lemma_odd_decomposition(d: nat, s: nat)
    requires
        d % 2 == 1,
    ensures
        odd_part((pow2(s) * d) as nat) == d,
        two_exponent((pow2(s) * d) as nat) == s,
    decreases s,
{
    lemma_pow2_pos(s);
    if s == 0 {
        lemma2_to64();
        assert(pow2(0) * d == d) by (nonlinear_arith)
            requires
                pow2(0) == 1,
        ;
    } else {
        lemma_odd_decomposition(d, (s - 1) as nat);
        lemma_pow2_unfold(s);
        let m = pow2(s) * d;
        let h = pow2((s - 1) as nat) * d;
        assert(m == 2 * h) by (nonlinear_arith)
            requires
                pow2(s) == 2 * pow2((s - 1) as nat),
                m == pow2(s) * d,
                h == pow2((s - 1) as nat) * d,
        ;
        lemma_pow2_pos((s - 1) as nat);
        assert(h >= 1) by (nonlinear_arith)
            requires
                pow2((s - 1) as nat) >= 1,
                d >= 1,
                h == pow2((s - 1) as nat) * d,
        ;
        lemma_fundamental_div_mod_converse(m as int, 2, h as int, 0);
        assert(m % 2 == 0);
        assert(m / 2 == h);
    }
}

/// Squaring advances the tested exponent by one factor of two, modulo `n`.
proof fn lemma_mr_square_step(a: int, e: nat, n: int)
    requires
        n >= 1,
    ensures
        (pow(a, e) % n) * (pow(a, e) % n) % n == pow(a, (2 * e) as nat) % n,
{
    lemma_pow_adds(a, e, e);
    lemma_mul_mod_noop_general(pow(a, e), pow(a, e), n);
}

/// A rejection by trial division is sound: a value above the native range
/// with a divisor among the trial candidates is truly composite, and the
/// decision procedure answers false on it for every round count and seed.
pub proof fn lemma_trial_rejection_sound(v: nat, rounds: nat, seed: u64)
    requires
        v > u64::MAX,
        has_small_divisor(v),
    ensures
        !is_prime_nat(v),
        !decide_spec(v, rounds, seed),
{
    let d = choose|d: nat| 2 <= d <= TRIAL_BOUND && #[trigger] (v % d) == 0;
    assert(1 < d < v);
    assert(!is_prime_nat(v)) by {
        if is_prime_nat(v) {
            assert(v % d != 0);
        }
    }
}

/// For every value in the native 64-bit range, the decision procedure
/// coincides with the small-prime oracle's exact answer, whatever the
/// number of rounds and the seed.
pub proof fn lemma_decide_native_exact(v: nat, rounds: nat, seed: u64)
    requires
        v <= u64::MAX,
    ensures
        decide_spec(v, rounds, seed) == is_prime_nat(v),
{
}

/// Arbitrary-precision primality decision: native-range values are decided
/// exactly through the oracle; larger values by trial division up to
/// `TRIAL_BOUND` and then `rounds` strong-pseudoprime rounds with bases
/// drawn deterministically from `seed`.
pub struct PrimalityEngine {}

impl PrimalityEngine {
    /// Decides primality with the default number of rounds.
    pub fn decide_default(n: &BigInt, seed: u64) -> (r: bool)
        ensures
            r == decide_spec(n.value(), DEFAULT_ROUNDS as nat, seed),
    {
        PrimalityEngine::decide(n, DEFAULT_ROUNDS, seed)
    }

    /// Decides primality of `n` with `rounds` rounds and base seed `seed`.
    pub fn decide(n: &BigInt, rounds: u32, seed: u64) -> (r: bool)
        ensures
            r == decide_spec(n.value(), rounds as nat, seed),
    {
        let ghost v = n.value();
        match n.to_u64_checked() {
            Some(x) => SmallPrimeOracle::is_prime(x),
            None => {
                let mut d: u64 = 2;
                while d <= TRIAL_BOUND
                    invariant
                        2 <= d <= TRIAL_BOUND + 1,
                        v == n.value(),
                        v > u64::MAX,
                        forall|t: nat| 2 <= t < d ==> #[trigger] (v % t) != 0,
                    decreases TRIAL_BOUND + 1 - d,
                {
                    let db = BigInt::from_u64(d);
                    let rem = match n.div_rem(&db) {
                        Ok(p) => p.1,
                        Err(_) => {
                            proof {
                                assert(false);
                            }
                            BigInt::from_u64(0)
                        },
                    };
                    proof {
                        lemma_mod_bound(v as int, d as int);
                        assert(v % (d as nat) == (v as int % d as int));
                    }
                    if rem.is_zero() {
                        proof {
                            assert(2 <= d as nat <= TRIAL_BOUND && v % (d as nat) == 0);
                        }
                        return false;
                    }
                    d = d + 1;
                }
                proof {
                    assert(!has_small_divisor(v)) by {
                        if has_small_divisor(v) {
                            let t = choose|t: nat|
                                2 <= t <= TRIAL_BOUND && #[trigger] (v % t) == 0;
                            assert(v % t != 0);
                        }
                    }
                    assert(v % 2 != 0);
                }
                let n1 = match n.decrement_by_one() {
                    Ok(m) => m,
                    Err(_) => {
                        proof {
                            assert(false);
                        }
                        BigInt::from_u64(0)
                    },
                };
                let two = BigInt::from_u64(2);
                let mut dd = n1.duplicate();
                let mut s: u128 = 0;
                proof {
                    lemma2_to64();
                    assert(pow2(0) * dd.value() == dd.value()) by (nonlinear_arith)
                        requires
                            pow2(0) == 1,
                    ;
                    n1.lemma_value_word_bound();
                    lemma_pow2(0x20_0000_0000_0000_0000);
                }
                while dd.is_even()
                    invariant
                        two.value() == 2,
                        n1.value() == v - 1,
                        v > u64::MAX,
                        dd.value() >= 1,
                        s <= 0x20_0000_0000_0000_0000,
                        pow2(s as nat) * dd.value() == n1.value(),
                        n1.value() < pow2(0x20_0000_0000_0000_0000),
                    decreases dd.value(),
                {
                    let ghost dv = dd.value();
                    let ghost sv = s as nat;
                    dd = match dd.div_rem(&two) {
                        Ok(p) => p.0,
                        Err(_) => {
                            proof {
                                assert(false);
                            }
                            BigInt::from_u64(0)
                        },
                    };
                    proof {
                        lemma_pow2_pos(sv);
                        assert(dv == 2 * dd.value());
                        assert(pow2((sv + 1) as nat) == 2 * pow2(sv)) by {
                            lemma_pow2_unfold((sv + 1) as nat);
                        }
                        assert(pow2((sv + 1) as nat) * dd.value() == pow2(sv) * dv)
                            by (nonlinear_arith)
                            requires
                                pow2((sv + 1) as nat) == 2 * pow2(sv),
                                dv == 2 * dd.value(),
                        ;
                        if s == 0x20_0000_0000_0000_0000 {
                            lemma_pow2_strictly_increases(
                                0x20_0000_0000_0000_0000,
                                (sv + 1) as nat,
                            );
                            assert(pow2((sv + 1) as nat) * dd.value() >= pow2((sv + 1) as nat))
                                by (nonlinear_arith)
                                requires
                                    dd.value() >= 1,
                                    pow2((sv + 1) as nat) >= 0,
                            ;
                            assert(false);
                        }
                    }
                    s = s + 1;
                }
                proof {
                    lemma_odd_decomposition(dd.value(), s as nat);
                    assert(odd_part((v - 1) as nat) == dd.value());
                    assert(two_exponent((v - 1) as nat) == s as nat);
                    if s == 0 {
                        assert((v - 1) as nat % 2 == 1);
                        lemma_mod_adds((v - 2) as int, 1, 2);
                        assert(false) by (nonlinear_arith)
                            requires
                                v % 2 == 1,
                                (v - 1) as nat % 2 == 1,
                                v >= 3,
                        ;
                    }
                }
                let mut state: u64 = seed;
                let mut k: u32 = 0;
                while k < rounds
                    invariant
                        k <= rounds,
                        v == n.value(),
                        v > u64::MAX,
                        two.value() == 2,
                        n1.value() == v - 1,
                        dd.value() == odd_part((v - 1) as nat),
                        dd.value() >= 1,
                        s as nat == two_exponent((v - 1) as nat),
                        s >= 1,
                        state == rng_state(seed, k as nat),
                        forall|t: nat| t < k ==> mr_round_passes(v, mr_base(seed, t)),
                    decreases rounds - k,
                {
                    state = rng_step(state);
                    let base_small: u64 = 2 + state;
                    let ghost ab = mr_base(seed, k as nat);
                    proof {
                        assert(base_small == ab);
                    }
                    let a = BigInt::from_u64(base_small);
                    let x0 = match a.mod_pow(&dd, n) {
                        Ok(p) => p,
                        Err(_) => {
                            proof {
                                assert(false);
                            }
                            BigInt::from_u64(0)
                        },
                    };
                    let one = BigInt::from_u64(1);
                    let mut round_ok = false;
                    if x0.eq_value(&one) {
                        round_ok = true;
                        proof {
                            assert(mr_round_passes(v, ab));
                        }
                    } else if x0.eq_value(&n1) {
                        round_ok = true;
                        proof {
                            lemma2_to64();
                            assert(pow2(0) * dd.value() == dd.value()) by (nonlinear_arith)
                                requires
                                    pow2(0) == 1,
                            ;
                            assert(0 < (s as nat) && pow(ab as int, pow2(0) * odd_part(
                                (v - 1) as nat,
                            )) % (v as int) == v - 1);
                            assert(mr_round_passes(v, ab));
                        }
                    } else {
                        let mut x = x0;
                        let mut i: u128 = 1;
                        proof {
                            lemma2_to64();
                            assert(pow2(0) * dd.value() == dd.value()) by (nonlinear_arith)
                                requires
                                    pow2(0) == 1,
                            ;
                        }
                        while i < s && !round_ok
                            invariant
                                1 <= i <= s,
                                v == n.value(),
                                v > u64::MAX,
                                n1.value() == v - 1,
                                dd.value() == odd_part((v - 1) as nat),
                                s as nat == two_exponent((v - 1) as nat),
                                ab == mr_base(seed, k as nat),
                                round_ok ==> mr_round_passes(v, ab),
                                !round_ok ==> x.value() == pow(ab as int, pow2(
                                    (i - 1) as nat,
                                ) * dd.value()) % (v as int),
                                !round_ok ==> pow(ab as int, dd.value() as nat) % (v as int)
                                    != 1,
                                !round_ok ==> forall|j: nat|
                                    j < i ==> pow(ab as int, pow2(j) * dd.value()) % (
                                    v as int) != v - 1,
                            decreases s - i,
                        {
                            let ghost e = pow2((i - 1) as nat) * dd.value();
                            let sq = match x.multiply(&x).div_rem(n) {
                                Ok(p) => p.1,
                                Err(_) => {
                                    proof {
                                        assert(false);
                                    }
                                    BigInt::from_u64(0)
                                },
                            };
                            proof {
                                lemma_mr_square_step(ab as int, e as nat, v as int);
                                lemma_pow2_unfold(i as nat);
                                assert(2 * (pow2((i - 1) as nat) * dd.value()) == pow2(
                                    i as nat,
                                ) * dd.value()) by (nonlinear_arith)
                                    requires
                                        pow2(i as nat) == 2 * pow2((i - 1) as nat),
                                ;
                                assert(sq.value() == pow(ab as int, pow2(i as nat)
                                    * dd.value()) % (v as int));
                            }
                            x = sq;
                            if x.eq_value(&n1) {
                                round_ok = true;
                                proof {
                                    assert((i as nat) < (s as nat) && pow(ab as int, pow2(
                                        i as nat,
                                    ) * odd_part((v - 1) as nat)) % (v as int) == v - 1);
                                    assert(mr_round_passes(v, ab));
                                }
                            }
                            i = i + 1;
                        }
                        if !round_ok {
                            proof {
                                assert(!mr_round_passes(v, ab)) by {
                                    if mr_round_passes(v, ab) {
                                        let j = choose|j: nat|
                                            j < two_exponent((v - 1) as nat) && pow(
                                                ab as int,
                                                pow2(j) * odd_part((v - 1) as nat),
                                            ) % (v as int) == v - 1;
                                        assert(pow(ab as int, pow2(j) * dd.value()) % (
                                        v as int) != v - 1);
                                    }
                                }
                                assert(!all_rounds_pass(v, rounds as nat, seed));
                            }
                            return false;
                        }
                    }
                    proof {
                        assert(forall|t: nat|
                            t < k + 1 ==> mr_round_passes(v, mr_base(seed, t)));
                    }
                    k = k + 1;
                }
                proof {
                    assert(all_rounds_pass(v, rounds as nat, seed));
                }
                true
            },
        }
    }
}

} // verus!
