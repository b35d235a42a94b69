use vstd::prelude::*;
use vstd::seq_lib::*;
use vstd::string::*;
use vstd::arithmetic::power::*;
use vstd::arithmetic::div_mod::*;
use crate::bigint::BigInt;
use crate::decimal::{digits_only, valid_digit_string, string_to_nat, nat_to_string, digit_char,
    digit_val, is_digit_char, lemma_nat_to_string_valid, lemma_char_round_trip, digit_of_char,
    push_digit};
use crate::ArithError;

verus! {

/// The value whose decimal representation is `n` repeated `1` digits.
pub open spec fn ones_value(n: nat) -> nat
    decreases n,
{
    if n == 0 {
        0
    } else {
        ones_value((n - 1) as nat) * 10 + 1
    }
}

/// The repunit satisfies `9 * R_n + 1 == 10^n`.
pub proof fn lemma_ones_pow(n: nat)
    ensures
        9 * ones_value(n) + 1 == pow(10, n),
    decreases n,
{
    if n == 0 {
        lemma_pow0(10);
    } else {
        lemma_ones_pow((n - 1) as nat);
        lemma_pow1(10);
        lemma_pow_adds(10, 1, (n - 1) as nat);
    }
}

pub proof fn lemma_ones_pos(n: nat)
    requires
        n >= 1,
    ensures
        ones_value(n) >= 1,
    decreases n,
{
    if n > 1 {
        lemma_ones_pos((n - 1) as nat);
    }
}

/// The decimal representation of the repunit is exactly `n` copies of `1`.
pub proof fn lemma_repunit_decimal(n: nat)
    requires
        n >= 1,
    ensures
        nat_to_string(ones_value(n)) =~= Seq::new(n, |i: int| '1'),
    decreases n,
{
    if n == 1 {
        assert(ones_value(0) == 0);
        assert(ones_value(1) == 1);
        assert(nat_to_string(1) =~= Seq::new(1, |i: int| '1'));
    } else {
        lemma_repunit_decimal((n - 1) as nat);
        lemma_ones_pos((n - 1) as nat);
        let m = ones_value(n);
        assert(m == ones_value((n - 1) as nat) * 10 + 1);
        assert(m >= 10 + 1) by (nonlinear_arith)
            requires
                ones_value((n - 1) as nat) >= 1,
                m == ones_value((n - 1) as nat) * 10 + 1,
        ;
        lemma_fundamental_div_mod_converse(m as int, 10, ones_value((n - 1) as nat) as int, 1);
        assert(m / 10 == ones_value((n - 1) as nat) && m % 10 == 1);
        assert(nat_to_string(m) == nat_to_string(ones_value((n - 1) as nat)).push('1'));
        assert(Seq::new((n - 1) as nat, |i: int| '1').push('1') =~= Seq::new(
            n,
            |i: int| '1',
        ));
    }
}

/// The decimal digits of `1`, `2`, ..., `n`, concatenated in that order.
pub open spec fn asc_string(n: nat) -> Seq<char>
    decreases n,
{
    if n == 0 {
        Seq::empty()
    } else {
        asc_string((n - 1) as nat) + nat_to_string(n)
    }
}

/// The decimal digits of `n`, `n - 1`, ..., `1`, concatenated in that order.
pub open spec fn desc_string(n: nat) -> Seq<char>
    decreases n,
{
    if n == 0 {
        Seq::empty()
    } else {
        nat_to_string(n) + desc_string((n - 1) as nat)
    }
}

/// The digit pattern `1 2 ... n (n-1) ... 1` as a string.
pub open spec fn pattern_string(n: nat) -> Seq<char> {
    asc_string(n) + desc_string((n - 1) as nat)
}

pub proof fn lemma_asc_digits(n: nat)
    ensures
        digits_only(asc_string(n)),
        n >= 1 ==> asc_string(n).len() > 0,
    decreases n,
{
    if n > 0 {
        lemma_asc_digits((n - 1) as nat);
        lemma_nat_to_string_valid(n);
    }
}

pub proof fn lemma_desc_digits(n: nat)
    ensures
        digits_only(desc_string(n)),
    decreases n,
{
    if n > 0 {
        lemma_desc_digits((n - 1) as nat);
        lemma_nat_to_string_valid(n);
    }
}

/// Builds the number whose digits are `1 2 ... n (n-1) ... 1`.
pub fn ascending_descending_pattern(n: u32) -> (r: BigInt)
    requires
        n >= 1,
    ensures
        r.value() == string_to_nat(pattern_string(n as nat)),
{
    let mut text = String::new();
    let mut i: u64 = 1;
    proof {
        assert(asc_string(0) =~= Seq::<char>::empty());
        assert(text@ =~= asc_string(0));
    }
    while i <= n as u64
        invariant
            1 <= i <= n + 1,
            text@ == asc_string((i - 1) as nat),
        decreases n + 1 - i,
    {
        let part = BigInt::from_u64(i).to_decimal_string();
        text.append(part.as_str());
        i = i + 1;
    }
    let mut j: u32 = n - 1;
    while j > 0
        invariant
            j <= n - 1,
            text@ + desc_string(j as nat) == asc_string(n as nat) + desc_string((n - 1) as nat),
        decreases j,
    {
        let part = BigInt::from_u64(j as u64).to_decimal_string();
        let ghost prev = text@;
        text.append(part.as_str());
        proof {
            assert(prev + (nat_to_string(j as nat) + desc_string((j - 1) as nat)) =~= (prev
                + nat_to_string(j as nat)) + desc_string((j - 1) as nat));
        }
        j = j - 1;
    }
    proof {
        assert(text@ + desc_string(0) =~= text@);
        lemma_asc_digits(n as nat);
        lemma_desc_digits((n - 1) as nat);
        assert(valid_digit_string(pattern_string(n as nat)));
    }
    match BigInt::from_decimal_string(text.as_str()) {
        Ok(v) => v,
        Err(_) => {
            proof {
                assert(false);
            }
            BigInt::from_u64(0)
        },
    }
}

/// The repunit `R_n = (10^n - 1) / 9`, the number of `n` repeated `1` digits.
pub fn repunit(n: u32) -> (r: BigInt)
    ensures
        r.value() == ones_value(n as nat),
        9 * r.value() + 1 == pow(10, n as nat),
{
    let ten = BigInt::from_u64(10);
    let one = BigInt::from_u64(1);
    let nine = BigInt::from_u64(9);
    let t = ten.pow(n as u64);
    proof {
        lemma_pow_positive(10, n as nat);
        lemma_ones_pow(n as nat);
    }
    let t1 = match t.subtract(&one) {
        Ok(v) => v,
        Err(_) => {
            proof {
                assert(false);
            }
            BigInt::from_u64(0)
        },
    };
    proof {
        lemma_fundamental_div_mod_converse(
            t1.value() as int,
            9,
            ones_value(n as nat) as int,
            0,
        );
    }
    match t1.div_rem(&nine) {
        Ok(p) => p.0,
        Err(_) => {
            proof {
                assert(false);
            }
            BigInt::from_u64(0)
        },
    }
}

/// Checks that `s` holds only digits and collects their values; `None` at
/// the first non-digit.
fn digits_of_str(s: &str) -> (r: Option<Vec<u32>>)
    ensures
        match r {
            Some(ds) => digits_only(s@) && ds@.len() == s@.len() && forall|k: int|
                0 <= k < ds@.len() ==> #[trigger] ds@[k] == digit_val(s@[k]) && ds@[k] < 10
                    && digit_char(ds@[k] as nat) == s@[k],
            None => !digits_only(s@),
        },
{
    let n = s.unicode_len();
    let mut ds: Vec<u32> = Vec::new();
    let mut i: usize = 0;
    while i < n
        invariant
            i <= n,
            n == s@.len(),
            ds@.len() == i,
            forall|k: int| 0 <= k < i ==> is_digit_char(#[trigger] s@[k]),
            forall|k: int| 0 <= k < i ==> #[trigger] ds@[k] == digit_val(s@[k]) && ds@[k] < 10
                && digit_char(ds@[k] as nat) == s@[k],
        decreases n - i,
    {
        let c = s.get_char(i);
        match digit_of_char(c) {
            Some(d) => {
                proof {
                    lemma_char_round_trip(c);
                }
                ds.push(d);
            },
            None => {
                return None;
            },
        }
        i = i + 1;
    }
    Some(ds)
}

/// Builds the even-length palindrome `s` followed by the reverse of `s`,
/// parsed as a number; `ParseError` when `s` is not a non-empty digit string.
pub fn palindrome_from_prefix(s: &str) -> (r: Result<BigInt, ArithError>)
    ensures
        match r {
            Ok(v) => valid_digit_string(s@) && v.value() == string_to_nat(s@ + s@.reverse()),
            Err(e) => !valid_digit_string(s@) && e == ArithError::ParseError,
        },
{
    let n = s.unicode_len();
    if n == 0 {
        return Err(ArithError::ParseError);
    }
    let ds = match digits_of_str(s) {
        Some(ds) => ds,
        None => {
            return Err(ArithError::ParseError);
        },
    };
    let mut text = String::from_str(s);
    let mut i: usize = n;
    proof {
        assert(s@.skip(n as int).reverse() =~= Seq::<char>::empty());
        assert(text@ =~= s@ + s@.skip(n as int).reverse());
    }
    while i > 0
        invariant
            i <= n,
            n == s@.len(),
            ds@.len() == n,
            forall|k: int| 0 <= k < n ==> #[trigger] ds@[k] == digit_val(s@[k]) && ds@[k] < 10
                && digit_char(ds@[k] as nat) == s@[k],
            text@ == s@ + s@.skip(i as int).reverse(),
        decreases i,
    {
        let j = i - 1;
        push_digit(&mut text, ds[j]);
        proof {
            assert(s@.skip(j as int).reverse() =~= s@.skip(i as int).reverse().push(
                s@[j as int],
            ));
            assert(text@ =~= s@ + s@.skip(j as int).reverse());
        }
        i = j;
    }
    proof {
        assert(s@.skip(0) =~= s@);
    }
    let ghost full = s@ + s@.reverse();
    proof {
        assert(forall|k: int| 0 <= k < full.len() ==> is_digit_char(#[trigger] full[k]));
    }
    match BigInt::from_decimal_string(text.as_str()) {
        Ok(v) => Ok(v),
        Err(_) => {
            proof {
                assert(false);
            }
            Err(ArithError::ParseError)
        },
    }
}

/// Builds the odd-length palindrome `s` followed by the reverse of `s`
/// without its last character, so the last character of `s` is the center.
pub fn palindrome_from_prefix_odd(s: &str) -> (r: Result<BigInt, ArithError>)
    ensures
        match r {
            Ok(v) => valid_digit_string(s@) && v.value() == string_to_nat(
                s@ + s@.drop_last().reverse(),
            ),
            Err(e) => !valid_digit_string(s@) && e == ArithError::ParseError,
        },
{
    let n = s.unicode_len();
    if n == 0 {
        return Err(ArithError::ParseError);
    }
    let ds = match digits_of_str(s) {
        Some(ds) => ds,
        None => {
            return Err(ArithError::ParseError);
        },
    };
    let mut text = String::from_str(s);
    let mut i: usize = n - 1;
    proof {
        assert(s@.drop_last().skip(i as int).reverse() =~= Seq::<char>::empty());
        assert(text@ =~= s@ + s@.drop_last().skip(i as int).reverse());
    }
    while i > 0
        invariant
            i <= n - 1,
            n == s@.len(),
            ds@.len() == n,
            forall|k: int| 0 <= k < n ==> #[trigger] ds@[k] == digit_val(s@[k]) && ds@[k] < 10
                && digit_char(ds@[k] as nat) == s@[k],
            text@ == s@ + s@.drop_last().skip(i as int).reverse(),
        decreases i,
    {
        let j = i - 1;
        push_digit(&mut text, ds[j]);
        proof {
            assert(s@.drop_last()[j as int] == s@[j as int]);
            assert(s@.drop_last().skip(j as int).reverse() =~= s@.drop_last().skip(
                i as int,
            ).reverse().push(s@[j as int]));
            assert(text@ =~= s@ + s@.drop_last().skip(j as int).reverse());
        }
        i = j;
    }
    proof {
        assert(s@.drop_last().skip(0) =~= s@.drop_last());
    }
    let ghost full = s@ + s@.drop_last().reverse();
    proof {
        assert(forall|k: int| 0 <= k < full.len() ==> is_digit_char(#[trigger] full[k]));
    }
    match BigInt::from_decimal_string(text.as_str()) {
        Ok(v) => Ok(v),
        Err(_) => {
            proof {
                assert(false);
            }
            Err(ArithError::ParseError)
        },
    }
}

/// The Mersenne number `2^p - 1`; odd for every exponent of at least one.
pub fn mersenne(p: u32) -> (r: BigInt)
    ensures
        r.value() + 1 == pow(2, p as nat),
        p >= 1 ==> r.value() % 2 == 1,
{
    let two = BigInt::from_u64(2);
    let one = BigInt::from_u64(1);
    let t = two.pow(p as u64);
    proof {
        lemma_pow_positive(2, p as nat);
        if p >= 1 {
            lemma_pow1(2);
            lemma_pow_adds(2, 1, (p - 1) as nat);
            lemma_pow_positive(2, (p - 1) as nat);
            let h = pow(2, (p - 1) as nat);
            lemma_fundamental_div_mod_converse(2 * h - 1, 2, h - 1, 1);
        }
    }
    match t.subtract(&one) {
        Ok(v) => v,
        Err(_) => {
            proof {
                assert(false);
            }
            BigInt::from_u64(0)
        },
    }
}

/// The perfect number `2^(p-1) * (2^p - 1)` built from a Mersenne exponent;
/// perfect exactly when `2^p - 1` is prime, which the caller checks.
pub fn perfect_from_mersenne_exponent(p: u32) -> (r: BigInt)
    requires
        p >= 1,
    ensures
        r.value() == pow(2, (p - 1) as nat) * (pow(2, p as nat) - 1),
{
    let two = BigInt::from_u64(2);
    let m = mersenne(p);
    two.pow((p - 1) as u64).multiply(&m)
}

} // verus!
