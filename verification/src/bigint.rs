use vstd::prelude::*;
use vstd::arithmetic::power::*;
use vstd::arithmetic::div_mod::*;
use crate::limbs::{BASE, base_pow, limbs_value, wf_limbs, lemma_base_pow_pos,
    lemma_base_pow_unfold, lemma_value_take_succ, lemma_value_split, lemma_value_bound,
    lemma_value_msb_lower, lemma_value_mod2, lemma_value_zero, lemma_value_len_order,
    lemma_value_drop_zero_top, lemma_value_empty, lemma_value_singleton};
use crate::ArithError;

verus! {

/// The result of comparing two `BigInt` values by numeric value.
#[derive(Clone, Copy, Debug, PartialEq, Eq, Structural)]
pub enum Cmp {
    Less,
    Equal,
    Greater,
}

/// An arbitrary-precision non-negative integer, stored as little-endian
/// base-2^32 limbs with no leading zero limb (zero is a single zero limb).
pub struct BigInt {
    limbs: Vec<u32>,
}

/// The limb radix is 2 to the power 32.
pub proof fn lemma_pow2_to_base()
    ensures
        pow(2, 32) == BASE,
{
    vstd::arithmetic::power2::lemma_pow2(32);
    vstd::arithmetic::power2::lemma2_to64();
}

/// Appending one limb adds its weighted value.
pub proof fn lemma_value_push(s: Seq<u32>, x: u32)
    ensures
        limbs_value(s.push(x)) == limbs_value(s) + x * base_pow(s.len()),
{
    let t = s.push(x);
    assert(t.take(s.len() as int) =~= s);
    assert(t.take(s.len() as int + 1) =~= t);
    lemma_value_take_succ(t, s.len() as int);
}

/// The value of the first `i` limbs of `s`, saturating at the whole sequence.
pub open spec fn prefix_value(s: Seq<u32>, i: int) -> nat {
    if i <= s.len() {
        limbs_value(s.take(i))
    } else {
        limbs_value(s)
    }
}

pub proof fn lemma_prefix_value_succ(s: Seq<u32>, i: int)
    requires
        0 <= i,
    ensures
        prefix_value(s, i + 1) == prefix_value(s, i) + (if i < s.len() {
            s[i] * base_pow(i as nat)
        } else {
            0
        }),
{
    if i < s.len() {
        lemma_value_take_succ(s, i);
        if i + 1 == s.len() {
            assert(s.take(i + 1) =~= s);
        }
    } else {
        assert(s.take(s.len() as int) =~= s);
    }
}

/// Strips leading zero limbs, producing a canonical representation.
fn normalized(v: Vec<u32>) -> (r: Vec<u32>)
    ensures
        wf_limbs(r@),
        limbs_value(r@) == limbs_value(v@),
{
    let mut w = v;
    if w.len() == 0 {
        w.push(0);
        proof {
            assert(w@ =~= seq![0u32]);
            lemma_value_singleton(0);
            lemma_value_empty();
        }
    }
    while w.len() > 1 && w[w.len() - 1] == 0
        invariant
            w@.len() >= 1,
            limbs_value(w@) == limbs_value(v@),
        decreases w@.len(),
    {
        proof {
            lemma_value_drop_zero_top(w@);
        }
        w.pop();
    }
    w
}

impl BigInt {
    /// The canonical-representation invariant of the limb vector.
    #[verifier::type_invariant]
    pub closed spec fn wf(&self) -> bool {
        wf_limbs(self.limbs@)
    }

    /// The mathematical value this `BigInt` represents.
    pub closed spec fn value(&self) -> nat {
        limbs_value(self.limbs@)
    }

    /// Builds a `BigInt` from an arbitrary (possibly non-canonical) limb vector.
    fn from_limbs(v: Vec<u32>) -> (r: BigInt)
        ensures
            r.value() == limbs_value(v@),
    {
        let w = normalized(v);
        BigInt { limbs: w }
    }

    /// The value of a native unsigned integer.
    pub fn from_u64(x: u64) -> (r: BigInt)
        ensures
            r.value() == x,
    {
        let lo = (x % BASE) as u32;
        let hi = (x / BASE) as u32;
        let mut v: Vec<u32> = Vec::new();
        v.push(lo);
        v.push(hi);
        proof {
            assert(v@.skip(1) =~= seq![hi]);
            lemma_value_singleton(hi);
            assert(limbs_value(v@) == lo + BASE * (hi as int));
            lemma_fundamental_div_mod(x as int, BASE as int);
        }
        BigInt::from_limbs(v)
    }

    /// An independent copy with the same value.
    pub fn duplicate(&self) -> (r: BigInt)
        ensures
            r.value() == self.value(),
    {
        proof {
            use_type_invariant(self);
        }
        let n = self.limbs.len();
        let mut v: Vec<u32> = Vec::new();
        let mut i: usize = 0;
        while i < n
            invariant
                i <= n,
                n == self.limbs@.len(),
                v@ =~= self.limbs@.take(i as int),
            decreases n - i,
        {
            v.push(self.limbs[i]);
            i = i + 1;
        }
        proof {
            assert(v@ =~= self.limbs@);
        }
        BigInt { limbs: v }
    }

    /// Any representable value is below 2 to the power `32 * (usize::MAX + 1)`,
    /// since each stored limb contributes 32 bits.
    pub proof fn lemma_value_word_bound(&self)
        ensures
            self.value() < pow(2, 0x20_0000_0000_0000_0000),
    {
        vstd::std_specs::vec::axiom_spec_len(&self.limbs);
        let len = self.limbs@.len();
        lemma_value_bound(self.limbs@);
        lemma_pow2_to_base();
        lemma_pow_multiplies(2, 32, len);
        assert(base_pow(len) == pow(2, (32 * len) as nat));
        assert(32 * len < 0x20_0000_0000_0000_0000);
        lemma_pow_strictly_increases(2, (32 * len) as nat, 0x20_0000_0000_0000_0000);
    }

    /// Recovers the value as a `u64` when it fits, `None` otherwise.
    pub fn to_u64_checked(&self) -> (r: Option<u64>)
        ensures
            match r {
                Some(x) => x == self.value(),
                None => self.value() > u64::MAX,
            },
    {
        proof {
            use_type_invariant(self);
        }
        if self.limbs.len() == 1 {
            proof {
                assert(self.limbs@ =~= seq![self.limbs@[0]]);
                lemma_value_singleton(self.limbs@[0]);
            }
            Some(self.limbs[0] as u64)
        } else if self.limbs.len() == 2 {
            let lo = self.limbs[0] as u64;
            let hi = self.limbs[1] as u64;
            proof {
                assert(self.limbs@.skip(1) =~= seq![self.limbs@[1]]);
                lemma_value_singleton(self.limbs@[1]);
                assert(self.value() == lo + BASE * hi);
                assert(lo + BASE * hi <= u64::MAX) by (nonlinear_arith)
                    requires
                        lo < BASE,
                        hi < BASE,
                        BASE == 0x1_0000_0000,
                ;
            }
            Some(lo + BASE * hi)
        } else {
            proof {
                lemma_value_msb_lower(self.limbs@);
                lemma_pow_increases(BASE as nat, 2, (self.limbs@.len() - 1) as nat);
                lemma_base_pow_unfold(2);
                lemma_base_pow_unfold(1);
                lemma_pow0(BASE as int);
            }
            None
        }
    }

    /// True exactly when the value is zero.
    pub fn is_zero(&self) -> (r: bool)
        ensures
            r == (self.value() == 0),
    {
        proof {
            use_type_invariant(self);
            lemma_value_zero(self.limbs@);
        }
        self.limbs.len() == 1 && self.limbs[0] == 0
    }

    /// True exactly when the value is even.
    pub fn is_even(&self) -> (r: bool)
        ensures
            r == (self.value() % 2 == 0),
    {
        proof {
            use_type_invariant(self);
            lemma_value_mod2(self.limbs@);
        }
        self.limbs[0] % 2 == 0
    }

    /// Total-order comparison by numeric value.
    pub fn cmp_with(&self, other: &BigInt) -> (c: Cmp)
        ensures
            c == Cmp::Less <==> self.value() < other.value(),
            c == Cmp::Equal <==> self.value() == other.value(),
            c == Cmp::Greater <==> self.value() > other.value(),
    {
        proof {
            use_type_invariant(self);
            use_type_invariant(other);
        }
        let a = &self.limbs;
        let b = &other.limbs;
        if a.len() < b.len() {
            proof {
                lemma_value_len_order(a@, b@);
            }
            Cmp::Less
        } else if b.len() < a.len() {
            proof {
                lemma_value_len_order(b@, a@);
            }
            Cmp::Greater
        } else {
            let n = a.len();
            let mut i: usize = n;
            while i > 0
                invariant
                    i <= n,
                    n == a@.len(),
                    n == b@.len(),
                    a@ == self.limbs@,
                    b@ == other.limbs@,
                    a@.skip(i as int) =~= b@.skip(i as int),
                decreases i,
            {
                let j = i - 1;
                if a[j] != b[j] {
                    proof {
                        lemma_value_split(a@, j as int);
                        lemma_value_split(b@, j as int);
                        lemma_value_bound(a@.take(j as int));
                        lemma_value_bound(b@.take(j as int));
                        assert(a@.skip(j as int).skip(1) =~= a@.skip(i as int));
                        assert(b@.skip(j as int).skip(1) =~= b@.skip(i as int));
                        lemma_base_pow_pos(j as nat);
                        let srest = limbs_value(a@.skip(i as int));
                        assert(limbs_value(b@.skip(i as int)) == srest);
                        let p = base_pow(j as nat);
                        let alo = limbs_value(a@.take(j as int)) as int;
                        let blo = limbs_value(b@.take(j as int)) as int;
                        let ahi = limbs_value(a@.skip(j as int)) as int;
                        let bhi = limbs_value(b@.skip(j as int)) as int;
                        assert(ahi == a@[j as int] + BASE * srest);
                        assert(bhi == b@[j as int] + BASE * srest);
                        assert(a@[j as int] < b@[j as int] ==> ahi < bhi);
                        assert(b@[j as int] < a@[j as int] ==> bhi < ahi);
                        assert(ahi < bhi ==> alo + p * ahi < blo + p * bhi) by (nonlinear_arith)
                            requires
                                p >= 1,
                                alo < p,
                                blo < p,
                                alo >= 0,
                                blo >= 0,
                        ;
                        assert(bhi < ahi ==> blo + p * bhi < alo + p * ahi) by (nonlinear_arith)
                            requires
                                p >= 1,
                                alo < p,
                                blo < p,
                                alo >= 0,
                                blo >= 0,
                        ;
                        assert(limbs_value(a@) == alo + p * ahi);
                        assert(limbs_value(b@) == blo + p * bhi);
                    }
                    if a[j] < b[j] {
                        return Cmp::Less;
                    } else {
                        return Cmp::Greater;
                    }
                }
                proof {
                    assert(a@.skip(j as int) =~= seq![a@[j as int]] + a@.skip(i as int));
                    assert(b@.skip(j as int) =~= seq![b@[j as int]] + b@.skip(i as int));
                }
                i = j;
            }
            proof {
                assert(a@.skip(0) =~= a@);
                assert(b@.skip(0) =~= b@);
            }
            Cmp::Equal
        }
    }

    /// True exactly when both represent the same value.
    pub fn eq_value(&self, other: &BigInt) -> (r: bool)
        ensures
            r == (self.value() == other.value()),
    {
        matches!(self.cmp_with(other), Cmp::Equal)
    }

    /// Arbitrary-precision addition.
    pub fn add(&self, other: &BigInt) -> (r: BigInt)
        ensures
            r.value() == self.value() + other.value(),
    {
        proof {
            use_type_invariant(self);
            use_type_invariant(other);
        }
        let a = &self.limbs;
        let b = &other.limbs;
        let la = a.len();
        let lb = b.len();
        let n = if la < lb {
            lb
        } else {
            la
        };
        let mut out: Vec<u32> = Vec::new();
        let mut carry: u64 = 0;
        let mut i: usize = 0;
        while i < n
            invariant
                i <= n,
                la == a@.len(),
                lb == b@.len(),
                n == if la < lb { lb as int } else { la as int },
                carry <= 1,
                out@.len() == i,
                limbs_value(out@) + carry * base_pow(i as nat)
                    == prefix_value(a@, i as int) + prefix_value(b@, i as int),
            decreases n - i,
        {
            let av: u64 = if i < la {
                a[i] as u64
            } else {
                0
            };
            let bv: u64 = if i < lb {
                b[i] as u64
            } else {
                0
            };
            let t = av + bv + carry;
            let d = (t % BASE) as u32;
            proof {
                lemma_value_push(out@, d);
                lemma_prefix_value_succ(a@, i as int);
                lemma_prefix_value_succ(b@, i as int);
                lemma_base_pow_unfold((i + 1) as nat);
                lemma_fundamental_div_mod(t as int, BASE as int);
                lemma_base_pow_pos(i as nat);
                let p = base_pow(i as nat);
                assert(limbs_value(out@) + (d + BASE * (t / BASE)) * p + 0 * p
                    == limbs_value(out@) + d * p + (t / BASE) * (BASE * p)) by (nonlinear_arith);
                assert((av + bv + carry) * p == av * p + bv * p + carry * p) by (nonlinear_arith);
            }
            out.push(d);
            carry = t / BASE;
            i = i + 1;
        }
        if carry > 0 {
            proof {
                lemma_value_push(out@, carry as u32);
            }
            out.push(carry as u32);
        }
        proof {
            assert(a@.take(la as int) =~= a@);
            assert(b@.take(lb as int) =~= b@);
        }
        BigInt::from_limbs(out)
    }

    /// Arbitrary-precision subtraction; `Underflow` when `self < other`.
    pub fn subtract(&self, other: &BigInt) -> (r: Result<BigInt, ArithError>)
        ensures
            match r {
                Ok(d) => self.value() >= other.value() && d.value() == self.value()
                    - other.value(),
                Err(e) => self.value() < other.value() && e == ArithError::Underflow,
            },
    {
        proof {
            use_type_invariant(self);
            use_type_invariant(other);
        }
        if matches!(self.cmp_with(other), Cmp::Less) {
            return Err(ArithError::Underflow);
        }
        let a = &self.limbs;
        let b = &other.limbs;
        let la = a.len();
        let lb = b.len();
        proof {
            if la < lb {
                lemma_value_len_order(a@, b@);
            }
        }
        let mut out: Vec<u32> = Vec::new();
        let mut borrow: u64 = 0;
        let mut i: usize = 0;
        while i < la
            invariant
                i <= la,
                lb <= la,
                la == a@.len(),
                lb == b@.len(),
                borrow <= 1,
                out@.len() == i,
                limbs_value(out@) + prefix_value(b@, i as int) == prefix_value(a@, i as int)
                    + borrow * base_pow(i as nat),
            decreases la - i,
        {
            let av: u64 = a[i] as u64;
            let sv: u64 = if i < lb {
                b[i] as u64 + borrow
            } else {
                borrow
            };
            let (d, nb): (u32, u64) = if av >= sv {
                ((av - sv) as u32, 0)
            } else {
                ((av + BASE - sv) as u32, 1)
            };
            proof {
                lemma_value_push(out@, d);
                lemma_prefix_value_succ(a@, i as int);
                lemma_prefix_value_succ(b@, i as int);
                lemma_base_pow_unfold((i + 1) as nat);
                lemma_base_pow_pos(i as nat);
                let p = base_pow(i as nat);
                let bvi: int = if i < lb {
                    b@[i as int] as int
                } else {
                    0
                };
                assert(d == av + nb * BASE - bvi - borrow);
                assert((av + nb * BASE - bvi - borrow) * p + bvi * p + borrow * p
                    == av * p + nb * (BASE * p)) by (nonlinear_arith);
            }
            out.push(d);
            borrow = nb;
            i = i + 1;
        }
        proof {
            assert(a@.take(la as int) =~= a@);
            if lb == la {
                assert(b@.take(lb as int) =~= b@);
            }
            if borrow == 1 {
                lemma_value_bound(out@);
                lemma_base_pow_pos(la as nat);
            }
        }
        Ok(BigInt::from_limbs(out))
    }

    /// Multiplies by a single limb.
    fn mul_by_limb(&self, m: u32) -> (r: BigInt)
        ensures
            r.value() == self.value() * m,
    {
        proof {
            use_type_invariant(self);
        }
        let a = &self.limbs;
        let la = a.len();
        let mut out: Vec<u32> = Vec::new();
        let mut carry: u64 = 0;
        let mut i: usize = 0;
        proof {
            assert(a@.take(0) =~= Seq::<u32>::empty());
            lemma_value_empty();
            lemma_pow0(BASE as int);
            assert(limbs_value(a@.take(0)) * m == 0 && 0u64 * base_pow(0) == 0)
                by (nonlinear_arith)
                requires
                    limbs_value(a@.take(0)) == 0,
            ;
        }
        while i < la
            invariant
                i <= la,
                la == a@.len(),
                a@ == self.limbs@,
                carry < BASE,
                out@.len() == i,
                limbs_value(out@) + carry * base_pow(i as nat) == limbs_value(a@.take(i as int))
                    * m,
            decreases la - i,
        {
            proof {
                assert(a@[i as int] * m + carry < BASE * BASE - 1) by (nonlinear_arith)
                    requires
                        a@[i as int] < BASE,
                        m < BASE,
                        carry < BASE,
                        BASE == 0x1_0000_0000,
                ;
            }
            let t = a[i] as u64 * m as u64 + carry;
            let d = (t % BASE) as u32;
            proof {
                lemma_value_push(out@, d);
                lemma_value_take_succ(a@, i as int);
                lemma_base_pow_unfold((i + 1) as nat);
                lemma_base_pow_pos(i as nat);
                lemma_fundamental_div_mod(t as int, BASE as int);
                let p = base_pow(i as nat);
                let av = a@[i as int] as int;
                let old_out = limbs_value(out@) as int;
                let c = carry as int;
                assert(old_out + d * p + (t / BASE) * (BASE * p) == old_out + (d + BASE * (t
                    / BASE)) * p) by (nonlinear_arith);
                assert((av * m + c) * p == (av * p) * m + c * p) by (nonlinear_arith);
                assert((limbs_value(a@.take(i as int)) + av * p) * m == limbs_value(a@.take(
                    i as int)) * m + (av * p) * m) by (nonlinear_arith);
            }
            out.push(d);
            carry = t / BASE;
            i = i + 1;
        }
        proof {
            lemma_value_push(out@, carry as u32);
            assert(a@.take(la as int) =~= a@);
        }
        out.push(carry as u32);
        BigInt::from_limbs(out)
    }

    /// Multiplies by `BASE` to the power `k` by prepending zero limbs.
    fn shift_limbs(&self, k: usize) -> (r: BigInt)
        ensures
            r.value() == base_pow(k as nat) * self.value(),
    {
        proof {
            use_type_invariant(self);
        }
        let mut out: Vec<u32> = Vec::new();
        let mut i: usize = 0;
        while i < k
            invariant
                i <= k,
                out@.len() == i,
                limbs_value(out@) == 0,
                forall|t: int| 0 <= t < i ==> out@[t] == 0u32,
            decreases k - i,
        {
            proof {
                lemma_value_push(out@, 0);
                assert(0u32 * base_pow(out@.len()) == 0) by (nonlinear_arith);
            }
            out.push(0);
            i = i + 1;
        }
        let la = self.limbs.len();
        let mut j: usize = 0;
        proof {
            assert(out@.take(k as int) =~= out@);
            assert(out@.skip(k as int) =~= self.limbs@.take(0));
        }
        while j < la
            invariant
                j <= la,
                la == self.limbs@.len(),
                out@.len() == k + j,
                out@.skip(k as int) =~= self.limbs@.take(j as int),
                limbs_value(out@.take(k as int)) == 0,
            decreases la - j,
        {
            let ghost prev = out@;
            out.push(self.limbs[j]);
            proof {
                assert(out@.take(k as int) =~= prev.take(k as int));
                assert(out@.skip(k as int) =~= self.limbs@.take(j + 1));
            }
            j = j + 1;
        }
        proof {
            lemma_value_split(out@, k as int);
            assert(self.limbs@.take(la as int) =~= self.limbs@);
        }
        BigInt::from_limbs(out)
    }

    /// Arbitrary-precision multiplication (grade-school limb products).
    pub fn multiply(&self, other: &BigInt) -> (r: BigInt)
        ensures
            r.value() == self.value() * other.value(),
    {
        proof {
            use_type_invariant(self);
            use_type_invariant(other);
        }
        let b = &other.limbs;
        let lb = b.len();
        let mut acc = BigInt::from_u64(0);
        let mut j: usize = 0;
        proof {
            assert(b@.take(0) =~= Seq::<u32>::empty());
            lemma_value_empty();
            assert(self.value() * limbs_value(b@.take(0)) == 0) by (nonlinear_arith)
                requires
                    limbs_value(b@.take(0)) == 0,
            ;
        }
        while j < lb
            invariant
                j <= lb,
                lb == b@.len(),
                b@ == other.limbs@,
                acc.value() == self.value() * limbs_value(b@.take(j as int)),
            decreases lb - j,
        {
            let part = self.mul_by_limb(b[j]).shift_limbs(j);
            proof {
                lemma_value_take_succ(b@, j as int);
                let p = base_pow(j as nat);
                let sv = self.value() as int;
                let bj = b@[j as int] as int;
                assert(p * (sv * bj) == sv * (bj * p)) by (nonlinear_arith);
                assert(sv * (limbs_value(b@.take(j as int)) + bj * p) == sv * limbs_value(
                    b@.take(j as int)) + sv * (bj * p)) by (nonlinear_arith);
            }
            acc = acc.add(&part);
            j = j + 1;
        }
        proof {
            assert(b@.take(lb as int) =~= b@);
        }
        acc
    }

    /// Exponentiation by repeated squaring; an exponent of zero yields one.
    pub fn pow(&self, exponent: u64) -> (r: BigInt)
        ensures
            r.value() == pow(self.value() as int, exponent as nat),
    {
        let mut result = BigInt::from_u64(1);
        let mut acc = self.duplicate();
        let mut k = exponent;
        while k > 0
            invariant
                result.value() * pow(acc.value() as int, k as nat) == pow(
                    self.value() as int,
                    exponent as nat,
                ),
            decreases k,
        {
            let ghost rv = result.value() as int;
            let ghost av = acc.value() as int;
            let ghost kv = k as nat;
            if k % 2 == 1 {
                result = result.multiply(&acc);
            }
            acc = acc.multiply(&acc);
            proof {
                let h = (kv / 2) as nat;
                if kv % 2 == 1 {
                    lemma_pow_square_half(av, (2 * h) as nat);
                    lemma_pow1(av);
                    lemma_pow_adds(av, 1, (2 * h) as nat);
                    assert(pow(av, kv) == av * pow(av * av, h));
                    assert((rv * av) * pow(av * av, h) == rv * (av * pow(av * av, h)))
                        by (nonlinear_arith);
                } else {
                    lemma_pow_square_half(av, kv);
                }
            }
            k = k / 2;
        }
        proof {
            lemma_pow0(acc.value() as int);
        }
        result
    }
}

impl BigInt {
    /// Euclidean division with remainder; `DivisionByZero` on a zero divisor.
    pub fn div_rem(&self, divisor: &BigInt) -> (r: Result<(BigInt, BigInt), ArithError>)
        ensures
            match r {
                Ok(qr) => divisor.value() != 0 && qr.0.value() * divisor.value() + qr.1.value()
                    == self.value() && qr.1.value() < divisor.value() && qr.0.value()
                    == self.value() as int / divisor.value() as int && qr.1.value()
                    == self.value() as int % divisor.value() as int,
                Err(e) => divisor.value() == 0 && e == ArithError::DivisionByZero,
            },
    {
        if divisor.is_zero() {
            return Err(ArithError::DivisionByZero);
        }
        let mut ds: Vec<BigInt> = Vec::new();
        ds.push(divisor.duplicate());
        proof {
            lemma_pow0(2);
        }
        while !matches!(ds[ds.len() - 1].cmp_with(self), Cmp::Greater)
            invariant
                ds@.len() >= 1,
                divisor.value() >= 1,
                forall|t: int| 0 <= t < ds@.len() ==> #[trigger] ds@[t].value() == pow(
                    2,
                    t as nat,
                ) * divisor.value(),
            decreases 2 * self.value() - ds@.last().value(),
        {
            proof {
                let t = ds@.len() - 1;
                lemma_pow_positive(2, t as nat);
                assert(pow(2, (t + 1) as nat) == 2 * pow(2, t as nat)) by {
                    lemma_pow1(2);
                    lemma_pow_adds(2, 1, t as nat);
                }
                assert((pow(2, t as nat) * divisor.value()) + (pow(2, t as nat)
                    * divisor.value()) == pow(2, (t + 1) as nat) * divisor.value())
                    by (nonlinear_arith)
                    requires
                        pow(2, (t + 1) as nat) == 2 * pow(2, t as nat),
                ;
                assert(ds@.last().value() >= 1) by (nonlinear_arith)
                    requires
                        ds@.last().value() == pow(2, (ds@.len() - 1) as nat) * divisor.value(),
                        pow(2, (ds@.len() - 1) as nat) >= 1,
                        divisor.value() >= 1,
                ;
            }
            let next = ds[ds.len() - 1].add(&ds[ds.len() - 1]);
            ds.push(next);
        }
        let k = ds.len();
        proof {
            let t = k - 1;
            lemma_pow_positive(2, t as nat);
            assert(pow(2, k as nat) == 2 * pow(2, t as nat)) by {
                lemma_pow1(2);
                lemma_pow_adds(2, 1, t as nat);
            }
            assert(self.value() < pow(2, k as nat) * divisor.value()) by (nonlinear_arith)
                requires
                    self.value() < ds@[k - 1].value(),
                    ds@[k - 1].value() == pow(2, (k - 1) as nat) * divisor.value(),
                    pow(2, k as nat) == 2 * pow(2, (k - 1) as nat),
                    divisor.value() >= 1,
                    pow(2, (k - 1) as nat) >= 1,
            ;
        }
        let mut q = BigInt::from_u64(0);
        let mut rem = self.duplicate();
        let mut j: usize = k;
        while j > 0
            invariant
                j <= k,
                k == ds@.len(),
                divisor.value() >= 1,
                forall|t: int| 0 <= t < ds@.len() ==> #[trigger] ds@[t].value() == pow(
                    2,
                    t as nat,
                ) * divisor.value(),
                q.value() * (pow(2, j as nat) * divisor.value()) + rem.value() == self.value(),
                rem.value() < pow(2, j as nat) * divisor.value(),
            decreases j,
        {
            let j1 = j - 1;
            proof {
                lemma_pow_positive(2, j1 as nat);
                assert(pow(2, j as nat) == 2 * pow(2, j1 as nat)) by {
                    lemma_pow1(2);
                    lemma_pow_adds(2, 1, j1 as nat);
                }
            }
            let ghost pd = pow(2, j1 as nat) * divisor.value();
            let ghost qv = q.value() as int;
            let ghost rv = rem.value() as int;
            proof {
                assert((qv + qv) * pd == qv * (2 * pd)) by (nonlinear_arith);
                assert((qv + qv + 1) * pd == qv * (2 * pd) + pd) by (nonlinear_arith);
                assert(pow(2, j as nat) * divisor.value() == 2 * pd) by (nonlinear_arith)
                    requires
                        pow(2, j as nat) == 2 * pow(2, j1 as nat),
                        pd == pow(2, j1 as nat) * divisor.value(),
                ;
            }
            q = q.add(&q);
            if !matches!(rem.cmp_with(&ds[j1]), Cmp::Less) {
                rem = match rem.subtract(&ds[j1]) {
                    Ok(v) => v,
                    Err(_) => {
                        proof {
                            assert(false);
                        }
                        BigInt::from_u64(0)
                    },
                };
                q = q.increment_by_one();
            }
            j = j1;
        }
        proof {
            lemma_pow0(2);
            lemma_fundamental_div_mod_converse(
                self.value() as int,
                divisor.value() as int,
                q.value() as int,
                rem.value() as int,
            );
        }
        Ok((q, rem))
    }
}

proof fn lemma_pow_square_half(a: int, k: nat)
    requires
        k % 2 == 0,
    ensures
        pow(a * a, k / 2) == pow(a, k),
{
    lemma_square_is_pow2(a);
    lemma_pow_multiplies(a, 2, k / 2);
}

proof fn lemma_mod_pow_step_even(r: int, a: int, k: nat, m: int)
    requires
        m >= 1,
        k % 2 == 0,
    ensures
        (r * pow((a * a) % m, k / 2)) % m == (r * pow(a, k)) % m,
{
    lemma_pow_square_half(a, k);
    lemma_pow_mod_noop(a * a, k / 2, m);
    lemma_mul_mod_noop_right(r, pow((a * a) % m, k / 2), m);
    lemma_mul_mod_noop_right(r, pow(a * a, k / 2), m);
}

proof fn lemma_mod_pow_step_odd(r: int, a: int, k: nat, m: int)
    requires
        m >= 1,
        k % 2 == 1,
    ensures
        (((r * a) % m) * pow((a * a) % m, k / 2)) % m == (r * pow(a, k)) % m,
{
    let h = k / 2;
    lemma_pow_square_half(a, (2 * h) as nat);
    lemma_pow_mod_noop(a * a, h, m);
    lemma_mul_mod_noop_left(r * a, pow((a * a) % m, h), m);
    lemma_mul_mod_noop_right(r * a, pow((a * a) % m, h), m);
    lemma_mul_mod_noop_right(r * a, pow(a * a, h), m);
    lemma_pow1(a);
    lemma_pow_adds(a, 1, (2 * h) as nat);
    assert(pow(a, k) == a * pow(a * a, h));
    assert((r * a) * pow(a * a, h) == r * (a * pow(a * a, h))) by (nonlinear_arith);
}

impl BigInt {
    /// Modular exponentiation by repeated squaring; `DivisionByZero` on a
    /// zero modulus.
    pub fn mod_pow(&self, exponent: &BigInt, modulus: &BigInt) -> (r: Result<
        BigInt,
        ArithError,
    >)
        ensures
            match r {
                Ok(v) => modulus.value() != 0 && v.value() == pow(
                    self.value() as int,
                    exponent.value(),
                ) % (modulus.value() as int),
                Err(e) => modulus.value() == 0 && e == ArithError::DivisionByZero,
            },
    {
        if modulus.is_zero() {
            return Err(ArithError::DivisionByZero);
        }
        let one = BigInt::from_u64(1);
        let two = BigInt::from_u64(2);
        let mut result = match one.div_rem(modulus) {
            Ok(p) => p.1,
            Err(_) => {
                proof {
                    assert(false);
                }
                BigInt::from_u64(0)
            },
        };
        let mut acc = match self.div_rem(modulus) {
            Ok(p) => p.1,
            Err(_) => {
                proof {
                    assert(false);
                }
                BigInt::from_u64(0)
            },
        };
        let mut k = exponent.duplicate();
        proof {
            let m = modulus.value() as int;
            lemma_pow_mod_noop(self.value() as int, exponent.value(), m);
            lemma_mul_mod_noop_left(1, pow(self.value() as int % m, exponent.value()), m);
        }
        while !k.is_zero()
            invariant
                modulus.value() >= 1,
                two.value() == 2,
                result.value() < modulus.value(),
                acc.value() < modulus.value(),
                (result.value() * pow(acc.value() as int, k.value())) % (
                modulus.value() as int) == pow(self.value() as int, exponent.value()) % (
                modulus.value() as int),
            decreases k.value(),
        {
            let ghost rv = result.value() as int;
            let ghost av = acc.value() as int;
            let ghost kv = k.value();
            let ghost m = modulus.value() as int;
            if !k.is_even() {
                result = match result.multiply(&acc).div_rem(modulus) {
                    Ok(p) => p.1,
                    Err(_) => {
                        proof {
                            assert(false);
                        }
                        BigInt::from_u64(0)
                    },
                };
                proof {
                    lemma_mod_pow_step_odd(rv, av, kv, m);
                }
            } else {
                proof {
                    lemma_mod_pow_step_even(rv, av, kv, m);
                }
            }
            acc = match acc.multiply(&acc).div_rem(modulus) {
                Ok(p) => p.1,
                Err(_) => {
                    proof {
                        assert(false);
                    }
                    BigInt::from_u64(0)
                },
            };
            k = match k.div_rem(&two) {
                Ok(p) => p.0,
                Err(_) => {
                    proof {
                        assert(false);
                    }
                    BigInt::from_u64(0)
                },
            };
        }
        proof {
            lemma_pow0(acc.value() as int);
            lemma_small_mod(result.value(), modulus.value());
        }
        Ok(result)
    }

    /// Adds one to the value.
    pub fn increment_by_one(&self) -> (r: BigInt)
        ensures
            r.value() == self.value() + 1,
    {
        let one = BigInt::from_u64(1);
        self.add(&one)
    }

    /// Subtracts one from the value; `Underflow` on zero.
    pub fn decrement_by_one(&self) -> (r: Result<BigInt, ArithError>)
        ensures
            match r {
                Ok(d) => self.value() >= 1 && d.value() == self.value() - 1,
                Err(e) => self.value() == 0 && e == ArithError::Underflow,
            },
    {
        let one = BigInt::from_u64(1);
        self.subtract(&one)
    }
}

} // verus!
