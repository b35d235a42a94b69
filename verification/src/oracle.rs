use vstd::prelude::*;

verus! {

/// Exact primality: at least 2, with no divisor strictly between 1 and itself.
pub open spec fn is_prime_nat(n: nat) -> bool {
    n >= 2 && forall|d: nat| 1 < d < n ==> #[trigger] (n % d) != 0
}

/// Relies on primal::is_prime (primal_check::miller_rabin): an exact,
/// deterministic Miller-Rabin test whose witness tables cover the whole
/// u64 range, so the answer equals true primality for every 64-bit input.
#[verifier::external_body]
fn primal_is_prime(n: u64) -> (r: bool)
    ensures
        r == is_prime_nat(n as nat),
{
    primal::is_prime(n)
}

/// Exact primality decisions for native 64-bit integers.
pub struct SmallPrimeOracle {}

impl SmallPrimeOracle {
    /// Decides primality of `n` exactly: true iff `n` has no divisor other
    /// than 1 and itself (and is at least 2).
    pub fn is_prime(n: u64) -> (r: bool)
        ensures
            r == is_prime_nat(n as nat),
    {
        primal_is_prime(n)
    }
}

} // verus!
