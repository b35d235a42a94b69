use vstd::prelude::*;
use vstd::arithmetic::power::*;
use vstd::arithmetic::div_mod::*;

verus! {

/// The radix of the limb representation: each limb is one base-2^32 digit.
pub const BASE: u64 = 0x1_0000_0000;

/// `BASE` raised to the power `k`, as a mathematical integer.
pub open spec fn base_pow(k: nat) -> int {
    pow(BASE as int, k)
}

/// The numeric value of a little-endian limb sequence.
pub open spec fn limbs_value(s: Seq<u32>) -> nat
    decreases s.len(),
{
    if s.len() == 0 {
        0
    } else {
        (s[0] + BASE * limbs_value(s.skip(1))) as nat
    }
}

/// A canonical limb sequence: at least one limb, and no leading zero limb
/// except for the single-limb representation of zero.
pub open spec fn wf_limbs(s: Seq<u32>) -> bool {
    s.len() >= 1 && (s.len() > 1 ==> s.last() != 0)
}

pub proof fn lemma_value_empty()
    ensures
        limbs_value(Seq::<u32>::empty()) == 0,
{
}

pub proof fn lemma_value_singleton(x: u32)
    ensures
        limbs_value(seq![x]) == x,
{
    let s = seq![x];
    assert(s.skip(1) =~= Seq::<u32>::empty());
    lemma_value_empty();
    assert(BASE * limbs_value(s.skip(1)) == 0) by (nonlinear_arith)
        requires
            limbs_value(s.skip(1)) == 0,
    ;
}

pub proof fn lemma_base_pow_pos(k: nat)
    ensures
        base_pow(k) >= 1,
{
    lemma_pow_positive(BASE as int, k);
}

pub proof fn lemma_base_pow_unfold(k: nat)
    requires
        k >= 1,
    ensures
        base_pow(k) == BASE * base_pow((k - 1) as nat),
{
    reveal(pow);
}

/// Extending a prefix by one limb adds that limb's weighted value.
pub proof fn lemma_value_take_succ(s: Seq<u32>, i: int)
    requires
        0 <= i < s.len(),
    ensures
        limbs_value(s.take(i + 1)) == limbs_value(s.take(i)) + s[i] * base_pow(i as nat),
    decreases i,
{
    lemma_base_pow_pos(i as nat);
    if i == 0 {
        assert(s.take(1) =~= seq![s[0]]);
        assert(s.take(0) =~= Seq::<u32>::empty());
        lemma_value_singleton(s[0]);
        lemma_value_empty();
        lemma_pow0(BASE as int);
        assert(s[0] * base_pow(0) == s[0]) by (nonlinear_arith)
            requires
                base_pow(0) == 1,
        ;
    } else {
        let t = s.skip(1);
        lemma_value_take_succ(t, i - 1);
        assert(s.take(i + 1).skip(1) =~= t.take(i));
        assert(s.take(i).skip(1) =~= t.take(i - 1));
        assert(s.take(i + 1)[0] == s[0]);
        assert(s.take(i)[0] == s[0]);
        assert(t[i - 1] == s[i]);
        assert(limbs_value(s.take(i + 1)) == s[0] + BASE * limbs_value(t.take(i)));
        assert(limbs_value(s.take(i)) == s[0] + BASE * limbs_value(t.take(i - 1)));
        lemma_base_pow_unfold(i as nat);
        lemma_base_pow_pos((i - 1) as nat);
        assert(BASE * (limbs_value(t.take(i - 1)) + s[i] * base_pow((i - 1) as nat))
            == BASE * limbs_value(t.take(i - 1)) + s[i] * (BASE * base_pow((i - 1) as nat)))
            by (nonlinear_arith);
    }
}

/// Splitting a limb sequence at position `i` splits its value.
pub proof fn lemma_value_split(s: Seq<u32>, i: int)
    requires
        0 <= i <= s.len(),
    ensures
        limbs_value(s) == limbs_value(s.take(i)) + base_pow(i as nat) * limbs_value(s.skip(i)),
    decreases i,
{
    if i == 0 {
        assert(s.take(0) =~= Seq::<u32>::empty());
        assert(s.skip(0) =~= s);
        lemma_pow0(BASE as int);
    } else {
        lemma_value_split(s, i - 1);
        let hi = s.skip(i - 1);
        assert(hi.len() > 0);
        assert(hi[0] == s[i - 1]);
        assert(hi.skip(1) =~= s.skip(i));
        assert(limbs_value(hi) == s[i - 1] + BASE * limbs_value(s.skip(i)));
        lemma_value_take_succ(s, i - 1);
        lemma_base_pow_unfold(i as nat);
        assert(base_pow((i - 1) as nat) * (s[i - 1] + BASE * limbs_value(s.skip(i)))
            == s[i - 1] * base_pow((i - 1) as nat)
               + (BASE * base_pow((i - 1) as nat)) * limbs_value(s.skip(i)))
            by (nonlinear_arith);
    }
}

/// The value of a limb sequence is below `BASE` to its length.
pub proof fn lemma_value_bound(s: Seq<u32>)
    ensures
        limbs_value(s) < base_pow(s.len()),
    decreases s.len(),
{
    if s.len() == 0 {
        lemma_pow0(BASE as int);
    } else {
        lemma_value_bound(s.skip(1));
        lemma_base_pow_unfold(s.len());
        assert(limbs_value(s) == s[0] + BASE * limbs_value(s.skip(1)));
        assert(s[0] + BASE * limbs_value(s.skip(1)) < BASE * base_pow((s.len() - 1) as nat))
            by (nonlinear_arith)
            requires
                s[0] < BASE,
                limbs_value(s.skip(1)) < base_pow((s.len() - 1) as nat),
                BASE >= 1,
        ;
    }
}

/// A sequence with a nonzero top limb reaches the weight of that limb.
pub proof fn lemma_value_msb_lower(s: Seq<u32>)
    requires
        s.len() > 0,
        s.last() != 0,
    ensures
        limbs_value(s) >= base_pow((s.len() - 1) as nat),
{
    let i = s.len() - 1;
    lemma_value_split(s, i as int);
    let top = s.skip(i as int);
    assert(top =~= seq![s.last()]);
    lemma_value_singleton(s.last());
    lemma_base_pow_pos(i as nat);
    assert(base_pow(i as nat) * limbs_value(top) >= base_pow(i as nat)) by (nonlinear_arith)
        requires
            base_pow(i as nat) >= 1,
            limbs_value(top) >= 1,
    ;
}

/// The parity of the value is the parity of the lowest limb.
pub proof fn lemma_value_mod2(s: Seq<u32>)
    requires
        s.len() > 0,
    ensures
        limbs_value(s) % 2 == s[0] % 2,
{
    let rest = limbs_value(s.skip(1));
    assert(limbs_value(s) == s[0] + BASE * rest);
    assert(BASE * rest == 2 * (0x8000_0000 * rest)) by (nonlinear_arith);
    lemma_mod_multiples_vanish(0x8000_0000 * rest as int, s[0] as int, 2);
}

/// A canonical sequence has value zero exactly when it is the single zero limb.
pub proof fn lemma_value_zero(s: Seq<u32>)
    requires
        wf_limbs(s),
    ensures
        (limbs_value(s) == 0) <==> (s.len() == 1 && s[0] == 0),
{
    if s.len() == 1 {
        assert(s =~= seq![s[0]]);
        lemma_value_singleton(s[0]);
    } else {
        lemma_value_msb_lower(s);
        lemma_base_pow_pos((s.len() - 1) as nat);
    }
}

/// Among canonical sequences, more limbs means a strictly larger value.
pub proof fn lemma_value_len_order(a: Seq<u32>, b: Seq<u32>)
    requires
        wf_limbs(a),
        wf_limbs(b),
        a.len() < b.len(),
    ensures
        limbs_value(a) < limbs_value(b),
{
    lemma_value_bound(a);
    lemma_value_msb_lower(b);
    lemma_pow_increases(BASE as nat, a.len(), (b.len() - 1) as nat);
}

/// Dropping a zero top limb keeps the value.
pub proof fn lemma_value_drop_zero_top(s: Seq<u32>)
    requires
        s.len() > 0,
        s.last() == 0,
    ensures
        limbs_value(s.drop_last()) == limbs_value(s),
{
    let i = s.len() - 1;
    lemma_value_take_succ(s, i as int);
    assert(s.take(i as int + 1) =~= s);
    assert(s.take(i as int) =~= s.drop_last());
    assert(s[i as int] * base_pow(i as nat) == 0) by (nonlinear_arith)
        requires
            s[i as int] == 0,
    ;
}

} // verus!
