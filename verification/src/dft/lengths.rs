//! The lengths that the engine transforms: powers of two up to the
//! two-adicity of the field.

use vstd::arithmetic::power2::*;
use vstd::prelude::*;

verus! {

/// The longest buffer the field has a root of unity for: `2^27` entries.
pub const MAX_LENGTH: usize = 0x8000000;

/// `n` is `1, 2, 4, 8, ...`.
pub open spec fn is_power_of_two(n: nat) -> bool
    decreases n,
{
    if n <= 1 {
        n == 1
    } else {
        n % 2 == 0 && is_power_of_two(n / 2)
    }
}

/// The number of times `n` can be halved before reaching one.
pub open spec fn log2(n: nat) -> nat
    decreases n,
{
    if n <= 1 {
        0
    } else {
        1 + log2(n / 2)
    }
}

/// `n` is a length the engine transforms: a power of two within the
/// two-adicity of the field.
pub open spec fn is_supported_length(n: nat) -> bool {
    is_power_of_two(n) && n <= MAX_LENGTH
}

/// A power of two is two to the power of its logarithm.
pub proof fn lemma_power_of_two_log(n: nat)
    requires
        is_power_of_two(n),
    ensures
        n == pow2(log2(n)),
    decreases n,
{
    if n <= 1 {
        lemma2_to64();
    } else {
        lemma_power_of_two_log(n / 2);
        lemma_pow2_unfold(log2(n));
    }
}

/// Two to any power is a power of two, with that power as its logarithm.
pub proof fn lemma_pow2_is_power_of_two(e: nat)
    ensures
        is_power_of_two(pow2(e)),
        log2(pow2(e)) == e,
    decreases e,
{
    if e == 0 {
        lemma2_to64();
    } else {
        lemma_pow2_unfold(e);
        lemma_pow2_pos((e - 1) as nat);
        lemma_pow2_is_power_of_two((e - 1) as nat);
    }
}

/// A supported length has at most 27 binary digits after the leading one.
pub proof fn lemma_supported_log(n: nat)
    requires
        is_supported_length(n),
    ensures
        log2(n) <= 27,
        n == pow2(log2(n)),
{
    lemma_power_of_two_log(n);
    lemma2_to64();
    if log2(n) > 27 {
        lemma_pow2_strictly_increases(27, log2(n));
    }
}

/// A length is supported exactly if it is a power of two of at most
/// `MAX_LENGTH`.
pub fn is_supported(n: usize) -> (b: bool)
    ensures
        b == is_supported_length(n as nat),
{
    if n == 0 || n > MAX_LENGTH {
        return false;
    }
    let mut m: usize = n;
    while m > 1 && m % 2 == 0
        invariant
            m >= 1,
            is_power_of_two(n as nat) == is_power_of_two(m as nat),
        decreases m,
    {
        m = m / 2;
    }
    m == 1
}

/// The binary logarithm of a power of two.
pub fn log2_of(n: usize) -> (bits: usize)
    requires
        is_power_of_two(n as nat),
    ensures
        bits == log2(n as nat),
{
    let mut m: usize = n;
    let mut bits: usize = 0;
    proof {
        lemma2_to64();
    }
    while m > 1
        invariant
            is_power_of_two(m as nat),
            bits + log2(m as nat) == log2(n as nat),
            bits <= 64,
            m * pow2(bits as nat) == n,
        decreases m,
    {
        proof {
            lemma2_to64();
            lemma_pow2_unfold((bits + 1) as nat);
            assert((m / 2) * (2 * pow2(bits as nat)) == m * pow2(bits as nat)) by (nonlinear_arith)
                requires
                    m % 2 == 0,
            ;
            assert(m * pow2(bits as nat) >= 2 * pow2(bits as nat)) by (nonlinear_arith)
                requires
                    m >= 2,
            ;
        }
        m = m / 2;
        bits = bits + 1;
    }
    bits
}

} // verus!
