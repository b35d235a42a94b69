use vstd::prelude::*;
use vstd::string::*;
use vstd::arithmetic::div_mod::*;
use crate::bigint::BigInt;
use crate::ArithError;

verus! {

pub open spec fn is_digit_char(c: char) -> bool {
    c == '0' || c == '1' || c == '2' || c == '3' || c == '4' || c == '5' || c == '6' || c == '7'
        || c == '8' || c == '9'
}

pub open spec fn digit_val(c: char) -> nat {
    if c == '0' {
        0
    } else if c == '1' {
        1
    } else if c == '2' {
        2
    } else if c == '3' {
        3
    } else if c == '4' {
        4
    } else if c == '5' {
        5
    } else if c == '6' {
        6
    } else if c == '7' {
        7
    } else if c == '8' {
        8
    } else {
        9
    }
}

pub open spec fn digit_char(d: nat) -> char {
    if d == 0 {
        '0'
    } else if d == 1 {
        '1'
    } else if d == 2 {
        '2'
    } else if d == 3 {
        '3'
    } else if d == 4 {
        '4'
    } else if d == 5 {
        '5'
    } else if d == 6 {
        '6'
    } else if d == 7 {
        '7'
    } else if d == 8 {
        '8'
    } else {
        '9'
    }
}

/// Every character is an ASCII decimal digit.
pub open spec fn digits_only(s: Seq<char>) -> bool {
    forall|i: int| 0 <= i < s.len() ==> is_digit_char(#[trigger] s[i])
}

/// A non-empty string of ASCII decimal digits.
pub open spec fn valid_digit_string(s: Seq<char>) -> bool {
    s.len() > 0 && digits_only(s)
}

pub proof fn lemma_char_round_trip(c: char)
    requires
        is_digit_char(c),
    ensures
        digit_char(digit_val(c)) == c,
{
}

/// The number denoted by a digit string.
pub open spec fn string_to_nat(s: Seq<char>) -> nat
    decreases s.len(),
{
    if s.len() == 0 {
        0
    } else {
        string_to_nat(s.drop_last()) * 10 + digit_val(s.last())
    }
}

/// The canonical decimal representation of a number: no leading zeros,
/// except that zero itself is the single digit `0`.
pub open spec fn nat_to_string(n: nat) -> Seq<char>
    decreases n,
{
    if n < 10 {
        seq![digit_char(n)]
    } else {
        nat_to_string(n / 10).push(digit_char(n % 10))
    }
}

pub proof fn lemma_digit_round_trip(d: nat)
    requires
        d < 10,
    ensures
        is_digit_char(digit_char(d)),
        digit_val(digit_char(d)) == d,
{
}

/// The canonical representation holds only digits and is never empty.
pub proof fn lemma_nat_to_string_valid(n: nat)
    ensures
        valid_digit_string(nat_to_string(n)),
    decreases n,
{
    if n < 10 {
        lemma_digit_round_trip(n);
    } else {
        lemma_nat_to_string_valid(n / 10);
        lemma_digit_round_trip(n % 10);
        let s = nat_to_string(n / 10);
        assert(forall|i: int| 0 <= i < s.len() ==> is_digit_char(#[trigger] s.push(
            digit_char(n % 10),
        )[i]));
    }
}

/// The canonical representation of a positive number never starts with `0`.
pub proof fn lemma_nat_to_string_no_leading_zero(n: nat)
    requires
        n >= 1,
    ensures
        nat_to_string(n)[0] != '0',
    decreases n,
{
    if n >= 10 {
        lemma_nat_to_string_no_leading_zero(n / 10);
    }
}

/// Reading back the canonical decimal representation yields the number:
/// the decimal conversions are inverses of one another.
pub proof fn lemma_decimal_round_trip(n: nat)
    ensures
        string_to_nat(nat_to_string(n)) == n,
    decreases n,
{
    if n < 10 {
        let s = nat_to_string(n);
        assert(s.drop_last() =~= Seq::<char>::empty());
        assert(string_to_nat(Seq::<char>::empty()) == 0);
        assert(s.last() == digit_char(n));
        lemma_digit_round_trip(n);
    } else {
        lemma_decimal_round_trip(n / 10);
        lemma_digit_round_trip(n % 10);
        let s = nat_to_string(n);
        assert(s.drop_last() =~= nat_to_string(n / 10));
        lemma_fundamental_div_mod(n as int, 10);
    }
}

/// The characters of a low-digit-first sequence of digits, most significant
/// first.
pub open spec fn digits_rev_chars(ds: Seq<u32>) -> Seq<char> {
    Seq::new(ds.len(), |i: int| digit_char(ds[ds.len() - 1 - i] as nat))
}

/// The numeric value of a digit character, `None` for any other character.
pub(crate) fn digit_of_char(c: char) -> (r: Option<u32>)
    ensures
        match r {
            Some(d) => is_digit_char(c) && d == digit_val(c) && d < 10,
            None => !is_digit_char(c),
        },
{
    match c {
        '0' => Some(0),
        '1' => Some(1),
        '2' => Some(2),
        '3' => Some(3),
        '4' => Some(4),
        '5' => Some(5),
        '6' => Some(6),
        '7' => Some(7),
        '8' => Some(8),
        '9' => Some(9),
        _ => None,
    }
}

/// Appends the digit character for `d` to a string.
pub(crate) fn push_digit(out: &mut String, d: u32)
    requires
        d < 10,
    ensures
        final(out)@ == old(out)@.push(digit_char(d as nat)),
{
    match d {
        0 => {
            out.append("0");
            proof {
                reveal_strlit("0");
                assert(final(out)@ =~= old(out)@.push('0'));
            }
        },
        1 => {
            out.append("1");
            proof {
                reveal_strlit("1");
                assert(final(out)@ =~= old(out)@.push('1'));
            }
        },
        2 => {
            out.append("2");
            proof {
                reveal_strlit("2");
                assert(final(out)@ =~= old(out)@.push('2'));
            }
        },
        3 => {
            out.append("3");
            proof {
                reveal_strlit("3");
                assert(final(out)@ =~= old(out)@.push('3'));
            }
        },
        4 => {
            out.append("4");
            proof {
                reveal_strlit("4");
                assert(final(out)@ =~= old(out)@.push('4'));
            }
        },
        5 => {
            out.append("5");
            proof {
                reveal_strlit("5");
                assert(final(out)@ =~= old(out)@.push('5'));
            }
        },
        6 => {
            out.append("6");
            proof {
                reveal_strlit("6");
                assert(final(out)@ =~= old(out)@.push('6'));
            }
        },
        7 => {
            out.append("7");
            proof {
                reveal_strlit("7");
                assert(final(out)@ =~= old(out)@.push('7'));
            }
        },
        8 => {
            out.append("8");
            proof {
                reveal_strlit("8");
                assert(final(out)@ =~= old(out)@.push('8'));
            }
        },
        _ => {
            out.append("9");
            proof {
                reveal_strlit("9");
                assert(final(out)@ =~= old(out)@.push('9'));
            }
        },
    }
}

impl BigInt {
    /// Parses a non-empty string of ASCII decimal digits; `ParseError`
    /// otherwise.
    pub fn from_decimal_string(s: &str) -> (r: Result<BigInt, ArithError>)
        ensures
            match r {
                Ok(v) => valid_digit_string(s@) && v.value() == string_to_nat(s@),
                Err(e) => !valid_digit_string(s@) && e == ArithError::ParseError,
            },
    {
        let n = s.unicode_len();
        if n == 0 {
            return Err(ArithError::ParseError);
        }
        let ten = BigInt::from_u64(10);
        let mut acc = BigInt::from_u64(0);
        let mut i: usize = 0;
        proof {
            assert(s@.take(0) =~= Seq::<char>::empty());
        }
        while i < n
            invariant
                i <= n,
                n == s@.len(),
                ten.value() == 10,
                acc.value() == string_to_nat(s@.take(i as int)),
                forall|j: int| 0 <= j < i ==> is_digit_char(#[trigger] s@[j]),
            decreases n - i,
        {
            let c = s.get_char(i);
            let d: u32 = match c {
                '0' => 0,
                '1' => 1,
                '2' => 2,
                '3' => 3,
                '4' => 4,
                '5' => 5,
                '6' => 6,
                '7' => 7,
                '8' => 8,
                '9' => 9,
                _ => {
                    return Err(ArithError::ParseError);
                },
            };
            let dig = BigInt::from_u64(d as u64);
            acc = acc.multiply(&ten).add(&dig);
            proof {
                assert(s@.take(i + 1).drop_last() =~= s@.take(i as int));
                assert(s@.take(i + 1).last() == s@[i as int]);
            }
            i = i + 1;
        }
        proof {
            assert(s@.take(n as int) =~= s@);
        }
        Ok(acc)
    }

    /// The canonical decimal representation: no leading zeros except the
    /// literal `0`.
    pub fn to_decimal_string(&self) -> (r: String)
        ensures
            r@ == nat_to_string(self.value()),
    {
        if self.is_zero() {
            let out = String::from_str("0");
            proof {
                reveal_strlit("0");
                assert(out@ =~= seq!['0']);
            }
            return out;
        }
        let ten = BigInt::from_u64(10);
        let mut rem = self.duplicate();
        let mut digits: Vec<u32> = Vec::new();
        proof {
            assert(digits_rev_chars(digits@) =~= Seq::<char>::empty());
            assert(nat_to_string(self.value()) + Seq::<char>::empty() =~= nat_to_string(
                self.value(),
            ));
        }
        while !rem.is_zero()
            invariant
                ten.value() == 10,
                forall|t: int| 0 <= t < digits@.len() ==> #[trigger] digits@[t] < 10,
                rem.value() > 0 ==> nat_to_string(self.value()) == nat_to_string(rem.value())
                    + digits_rev_chars(digits@),
                rem.value() == 0 ==> nat_to_string(self.value()) == digits_rev_chars(digits@),
            decreases rem.value(),
        {
            let ghost rv = rem.value();
            let (q, d) = match rem.div_rem(&ten) {
                Ok(p) => p,
                Err(_) => {
                    proof {
                        assert(false);
                    }
                    (BigInt::from_u64(0), BigInt::from_u64(0))
                },
            };
            let dv: u32 = match d.to_u64_checked() {
                Some(x) => x as u32,
                None => {
                    proof {
                        assert(false);
                    }
                    0
                },
            };
            let ghost prev = digits@;
            digits.push(dv);
            proof {
                assert(digits_rev_chars(digits@) =~= seq![digit_char(dv as nat)]
                    + digits_rev_chars(prev));
                if q.value() > 0 {
                    assert(rv >= 10) by {
                        lemma_fundamental_div_mod(rv as int, 10);
                    }
                    assert(nat_to_string(rv) == nat_to_string(rv / 10).push(
                        digit_char(rv % 10),
                    ));
                    assert(nat_to_string(rv / 10).push(digit_char(rv % 10))
                        + digits_rev_chars(prev) =~= nat_to_string(rv / 10) + (seq![
                        digit_char(rv % 10)] + digits_rev_chars(prev)));
                } else {
                    assert(rv < 10) by {
                        lemma_fundamental_div_mod(rv as int, 10);
                    }
                    assert(rv % 10 == rv) by {
                        lemma_small_mod(rv, 10);
                    }
                    assert(nat_to_string(rv) + digits_rev_chars(prev) =~= seq![
                        digit_char(rv)] + digits_rev_chars(prev));
                }
            }
            rem = q;
        }
        let mut out = String::new();
        let mut i: usize = digits.len();
        proof {
            assert(out@ =~= digits_rev_chars(digits@).take(0));
        }
        while i > 0
            invariant
                i <= digits@.len(),
                forall|t: int| 0 <= t < digits@.len() ==> #[trigger] digits@[t] < 10,
                out@ == digits_rev_chars(digits@).take(digits@.len() - i),
            decreases i,
        {
            let j = i - 1;
            push_digit(&mut out, digits[j]);
            proof {
                assert(out@ =~= digits_rev_chars(digits@).take(digits@.len() - j));
            }
            i = j;
        }
        proof {
            assert(digits_rev_chars(digits@).take(digits@.len() as int) =~= digits_rev_chars(
                digits@,
            ));
        }
        out
    }
}

} // verus!
