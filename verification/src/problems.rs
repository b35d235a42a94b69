use vstd::prelude::*;
use vstd::arithmetic::power::*;
use crate::bigint::BigInt;
use crate::oracle::{SmallPrimeOracle, is_prime_nat};
use crate::engine::{PrimalityEngine, decide_spec};
use crate::patterns::{ascending_descending_pattern, repunit, mersenne,
    perfect_from_mersenne_exponent, palindrome_from_prefix, palindrome_from_prefix_odd,
    pattern_string, ones_value};
use crate::decimal::{string_to_nat, nat_to_string, lemma_nat_to_string_valid};

verus! {

/// The value of the ascending-descending digit pattern for index `i`.
pub open spec fn pattern_value(i: nat) -> nat {
    string_to_nat(pattern_string(i))
}

/// Pattern index `i` is inside the searched band and its pattern number is
/// accepted by the decision procedure.
pub open spec fn pattern_hit(i: nat, rounds: nat, seed: u64) -> bool {
    1000 <= i <= 3000 && decide_spec(pattern_value(i), rounds, seed)
}

/// Exponent `n` is prime and its repunit is accepted by the decision
/// procedure.
pub open spec fn repunit_hit(n: nat, rounds: nat, seed: u64) -> bool {
    is_prime_nat(n) && decide_spec(ones_value(n), rounds, seed)
}

/// Exponent `p` is prime and its Mersenne number is accepted by the decision
/// procedure.
pub open spec fn mersenne_hit(p: nat, rounds: nat, seed: u64) -> bool {
    is_prime_nat(p) && decide_spec((pow(2, p) - 1) as nat, rounds, seed)
}

/// The palindrome built by mirroring the decimal digits of `m`, with an odd
/// digit count when `odd_center` is set.
pub open spec fn pal_value(m: nat, odd_center: bool) -> nat {
    if odd_center {
        string_to_nat(nat_to_string(m) + nat_to_string(m).drop_last().reverse())
    } else {
        string_to_nat(nat_to_string(m) + nat_to_string(m).reverse())
    }
}

/// The palindrome built from `m` is accepted by the decision procedure.
pub open spec fn pal_hit(m: nat, odd_center: bool, rounds: nat, seed: u64) -> bool {
    decide_spec(pal_value(m, odd_center), rounds, seed)
}

/// The smallest number with `limit_digits` decimal digits.
pub open spec fn pal_start(limit_digits: nat) -> nat {
    pow(10, (limit_digits - 1) as nat) as nat
}

/// The `t`-th candidate of the palindrome search yields an accepted
/// palindrome.
pub open spec fn pal_search_hit(
    limit_digits: nat,
    t: nat,
    odd_center: bool,
    rounds: nat,
    seed: u64,
) -> bool {
    pal_hit((pal_start(limit_digits) + t) as nat, odd_center, rounds, seed)
}

/// `j` splits `n` into the candidate Goldbach pair `(j, n - j)` of primes.
pub open spec fn goldbach_split(n: nat, j: nat) -> bool {
    is_prime_nat(j) && is_prime_nat((n - j) as nat)
}

proof fn lemma_push_keeps_contains<T>(s: Seq<T>, x: T)
    ensures
        forall|y: T| s.contains(y) ==> #[trigger] s.push(x).contains(y),
        s.push(x).contains(x),
{
    assert forall|y: T| s.contains(y) implies #[trigger] s.push(x).contains(y) by {
        let i = choose|i: int| 0 <= i < s.len() && s[i] == y;
        assert(s.push(x)[i] == y);
    }
    assert(s.push(x)[s.len() as int] == x);
}

/// Scans pattern indices `lo ..= hi` and returns the first index inside the
/// band `1000 ..= 3000` whose pattern number the engine accepts, with the
/// number itself.
pub fn find_pattern_prime(lo: u32, hi: u32, rounds: u32, seed: u64) -> (r: Option<(u32, BigInt)>)
    ensures
        match r {
            Some(p) => lo <= p.0 <= hi && pattern_hit(p.0 as nat, rounds as nat, seed)
                && p.1.value() == pattern_value(p.0 as nat) && forall|j: nat|
                lo <= j < p.0 ==> !pattern_hit(j, rounds as nat, seed),
            None => forall|j: nat| lo <= j <= hi ==> !pattern_hit(j, rounds as nat, seed),
        },
{
    let mut i: u64 = lo as u64;
    while i <= hi as u64
        invariant
            lo <= i,
            i <= hi + 1 || i == lo,
            forall|j: nat| lo <= j < i ==> !pattern_hit(j, rounds as nat, seed),
        decreases hi + 1 - i,
    {
        if 1000 <= i && i <= 3000 {
            let num = ascending_descending_pattern(i as u32);
            if PrimalityEngine::decide(&num, rounds, seed) {
                return Some((i as u32, num));
            }
        }
        i = i + 1;
    }
    None
}

/// Collects, in increasing order, the prime exponents `n` in `2 ..= limit`
/// whose repunit the engine accepts.
pub fn repunit_prime_exponents(limit: u32, rounds: u32, seed: u64) -> (r: Vec<u32>)
    ensures
        forall|k: int| 0 <= k < r@.len() ==> 2 <= #[trigger] r@[k] <= limit && repunit_hit(
            r@[k] as nat,
            rounds as nat,
            seed,
        ),
        forall|n: nat| 2 <= n <= limit && repunit_hit(n, rounds as nat, seed)
            ==> r@.contains(n as u32),
        forall|k1: int, k2: int| 0 <= k1 < k2 < r@.len() ==> r@[k1] < r@[k2],
{
    let mut out: Vec<u32> = Vec::new();
    let mut n: u64 = 2;
    while n <= limit as u64
        invariant
            2 <= n,
            n <= limit + 1 || n == 2,
            forall|k: int| 0 <= k < out@.len() ==> 2 <= #[trigger] out@[k] && out@[k] < n
                && out@[k] <= limit && repunit_hit(out@[k] as nat, rounds as nat, seed),
            forall|m: nat| 2 <= m < n && repunit_hit(m, rounds as nat, seed)
                ==> out@.contains(m as u32),
            forall|k1: int, k2: int| 0 <= k1 < k2 < out@.len() ==> out@[k1] < out@[k2],
        decreases limit + 1 - n,
    {
        if SmallPrimeOracle::is_prime(n) {
            let rep = repunit(n as u32);
            if PrimalityEngine::decide(&rep, rounds, seed) {
                proof {
                    lemma_push_keeps_contains(out@, n as u32);
                }
                out.push(n as u32);
            }
        }
        n = n + 1;
    }
    out
}

/// Collects, in increasing order, the prime exponents `p` in `start ..= end`
/// whose Mersenne number the engine accepts.
pub fn mersenne_prime_exponents(start: u32, end: u32, rounds: u32, seed: u64) -> (r: Vec<u32>)
    ensures
        forall|k: int| 0 <= k < r@.len() ==> start <= #[trigger] r@[k] <= end && mersenne_hit(
            r@[k] as nat,
            rounds as nat,
            seed,
        ),
        forall|p: nat| start <= p <= end && mersenne_hit(p, rounds as nat, seed)
            ==> r@.contains(p as u32),
        forall|k1: int, k2: int| 0 <= k1 < k2 < r@.len() ==> r@[k1] < r@[k2],
{
    let mut out: Vec<u32> = Vec::new();
    let mut p: u64 = start as u64;
    while p <= end as u64
        invariant
            start <= p,
            p <= end + 1 || p == start,
            forall|k: int| 0 <= k < out@.len() ==> start <= #[trigger] out@[k] && out@[k] < p
                && out@[k] <= end && mersenne_hit(out@[k] as nat, rounds as nat, seed),
            forall|m: nat| start <= m < p && mersenne_hit(m, rounds as nat, seed)
                ==> out@.contains(m as u32),
            forall|k1: int, k2: int| 0 <= k1 < k2 < out@.len() ==> out@[k1] < out@[k2],
        decreases end + 1 - p,
    {
        if SmallPrimeOracle::is_prime(p) {
            let m = mersenne(p as u32);
            if PrimalityEngine::decide(&m, rounds, seed) {
                proof {
                    lemma_push_keeps_contains(out@, p as u32);
                }
                out.push(p as u32);
            }
        }
        p = p + 1;
    }
    out
}

/// Returns the first (at most) ten primes strictly between `p1 * p1` and
/// `p2 * p2`, in increasing order.
pub fn primes_in_square_interval(p1: u64, p2: u64) -> (r: Vec<u64>)
    requires
        p1 * p1 <= u64::MAX,
        p2 * p2 <= u64::MAX,
    ensures
        forall|k: int| 0 <= k < r@.len() ==> p1 * p1 < #[trigger] r@[k] < p2 * p2
            && is_prime_nat(r@[k] as nat),
        forall|k1: int, k2: int| 0 <= k1 < k2 < r@.len() ==> r@[k1] < r@[k2],
        r@.len() <= 10,
        forall|m: nat| p1 * p1 < m < p2 * p2 && is_prime_nat(m) ==> (r@.contains(m as u64) || (
        r@.len() == 10 && m > r@[9])),
{
    let lower = p1 * p1;
    let upper = p2 * p2;
    let mut out: Vec<u64> = Vec::new();
    if lower >= upper {
        return out;
    }
    let mut cand: u64 = lower + 1;
    while cand < upper && out.len() < 10
        invariant
            lower == p1 * p1,
            upper == p2 * p2,
            lower < cand <= upper,
            out@.len() <= 10,
            forall|k: int| 0 <= k < out@.len() ==> lower < #[trigger] out@[k] < cand
                && is_prime_nat(out@[k] as nat),
            forall|m: nat| lower < m < cand && is_prime_nat(m) ==> out@.contains(m as u64),
            forall|k1: int, k2: int| 0 <= k1 < k2 < out@.len() ==> out@[k1] < out@[k2],
        decreases upper - cand,
    {
        if SmallPrimeOracle::is_prime(cand) {
            proof {
                lemma_push_keeps_contains(out@, cand);
            }
            out.push(cand);
        }
        cand = cand + 1;
    }
    proof {
        if out@.len() == 10 {
            assert(out@[9] < cand);
        }
    }
    out
}

/// Searches upward from the smallest `limit_digits`-digit number for the
/// first mirrored palindrome the engine accepts, trying at most `max_steps`
/// starting points.
pub fn find_palindromic_probable_prime(
    limit_digits: u32,
    odd_center: bool,
    rounds: u32,
    seed: u64,
    max_steps: u64,
) -> (r: Option<BigInt>)
    requires
        limit_digits >= 1,
    ensures
        match r {
            Some(p) => exists|t: nat|
                t < max_steps && #[trigger] pal_search_hit(
                    limit_digits as nat,
                    t,
                    odd_center,
                    rounds as nat,
                    seed,
                ) && p.value() == pal_value(
                    (pal_start(limit_digits as nat) + t) as nat,
                    odd_center,
                ) && forall|u: nat|
                    u < t ==> !pal_search_hit(
                        limit_digits as nat,
                        u,
                        odd_center,
                        rounds as nat,
                        seed,
                    ),
            None => forall|t: nat|
                t < max_steps ==> !pal_search_hit(
                    limit_digits as nat,
                    t,
                    odd_center,
                    rounds as nat,
                    seed,
                ),
        },
{
    let ghost n0 = pal_start(limit_digits as nat);
    let ten = BigInt::from_u64(10);
    let mut cur = ten.pow((limit_digits - 1) as u64);
    let mut t: u64 = 0;
    proof {
        lemma_pow_positive(10, (limit_digits - 1) as nat);
    }
    while t < max_steps
        invariant
            t <= max_steps,
            n0 == pal_start(limit_digits as nat),
            cur.value() == n0 + t,
            forall|u: nat|
                u < t ==> !pal_search_hit(limit_digits as nat, u, odd_center, rounds as nat, seed),
        decreases max_steps - t,
    {
        let s = cur.to_decimal_string();
        proof {
            lemma_nat_to_string_valid(cur.value());
        }
        let pal = if odd_center {
            match palindrome_from_prefix_odd(s.as_str()) {
                Ok(v) => v,
                Err(_) => {
                    proof {
                        assert(false);
                    }
                    BigInt::from_u64(0)
                },
            }
        } else {
            match palindrome_from_prefix(s.as_str()) {
                Ok(v) => v,
                Err(_) => {
                    proof {
                        assert(false);
                    }
                    BigInt::from_u64(0)
                },
            }
        };
        proof {
            assert(pal.value() == pal_value((n0 + t) as nat, odd_center));
        }
        if PrimalityEngine::decide(&pal, rounds, seed) {
            proof {
                assert(t < max_steps && pal_search_hit(
                    limit_digits as nat,
                    t as nat,
                    odd_center,
                    rounds as nat,
                    seed,
                ));
            }
            return Some(pal);
        }
        cur = cur.increment_by_one();
        t = t + 1;
    }
    None
}

/// Builds the perfect number `2^(p-1) * (2^p - 1)` when the engine accepts
/// the Mersenne number `2^p - 1`, and `None` otherwise.
pub fn perfect_number_from_exponent(p: u32, rounds: u32, seed: u64) -> (r: Option<BigInt>)
    requires
        p >= 1,
    ensures
        match r {
            Some(v) => decide_spec((pow(2, p as nat) - 1) as nat, rounds as nat, seed)
                && v.value() == pow(2, (p - 1) as nat) * (pow(2, p as nat) - 1),
            None => !decide_spec((pow(2, p as nat) - 1) as nat, rounds as nat, seed),
        },
{
    let m = mersenne(p);
    if PrimalityEngine::decide(&m, rounds, seed) {
        Some(perfect_from_mersenne_exponent(p))
    } else {
        None
    }
}

/// Finds the Goldbach pair `(i, even_n - i)` of primes with the smallest
/// `i`, for an even `even_n` greater than two; `None` for invalid input or
/// when no split exists.
pub fn goldbach_pair(even_n: u64) -> (r: Option<(u64, u64)>)
    ensures
        match r {
            Some(pair) => even_n % 2 == 0 && even_n > 2 && 2 <= pair.0 && pair.0 < even_n
                && pair.0 + pair.1 == even_n && goldbach_split(even_n as nat, pair.0 as nat)
                && forall|j: nat| 2 <= j < pair.0 ==> !goldbach_split(even_n as nat, j),
            None => even_n % 2 != 0 || even_n <= 2 || forall|j: nat|
                2 <= j < even_n ==> !goldbach_split(even_n as nat, j),
        },
{
    if even_n % 2 != 0 || even_n <= 2 {
        return None;
    }
    let mut i: u64 = 2;
    while i < even_n
        invariant
            2 <= i <= even_n,
            even_n % 2 == 0,
            even_n > 2,
            forall|j: nat| 2 <= j < i ==> !goldbach_split(even_n as nat, j),
        decreases even_n - i,
    {
        if SmallPrimeOracle::is_prime(i) && SmallPrimeOracle::is_prime(even_n - i) {
            return Some((i, even_n - i));
        }
        i = i + 1;
    }
    None
}

} // verus!
