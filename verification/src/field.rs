//! Canonical representatives of Baby Bear field elements: the prime, the
//! reduced arithmetic the transforms run on, and the calls into the field
//! backend that supplies roots of unity and inverses.

use p3_baby_bear::BabyBear;
use p3_field::{AbstractField, Field, PrimeField32, TwoAdicField};
use vstd::arithmetic::div_mod::*;
use vstd::prelude::*;

verus! {

/// The Baby Bear prime, `2^31 - 2^27 + 1`.
pub const P: i64 = 0x78000001;

/// The prime as a mathematical integer.
pub open spec fn modulus() -> int {
    0x78000001
}

/// `x` is the canonical representative of a field element.
pub open spec fn is_reduced(x: int) -> bool {
    0 <= x < modulus()
}

/// Every entry of `s` is a canonical representative.
pub open spec fn all_reduced(s: Seq<int>) -> bool {
    forall|i: int| 0 <= i < s.len() ==> is_reduced(#[trigger] s[i])
}

/// The entries of a buffer as mathematical integers.
pub open spec fn as_ints(s: Seq<i64>) -> Seq<int> {
    Seq::new(s.len(), |i: int| s[i] as int)
}

/// Sum of two field elements.
pub fn add_mod(a: i64, b: i64) -> (c: i64)
    requires
        is_reduced(a as int),
        is_reduced(b as int),
    ensures
        c == (a + b) % modulus(),
        is_reduced(c as int),
{
    (a + b) % P
}

/// Difference of two field elements.
pub fn sub_mod(a: i64, b: i64) -> (c: i64)
    requires
        is_reduced(a as int),
        is_reduced(b as int),
    ensures
        c == (a - b) % modulus(),
        is_reduced(c as int),
{
    let c = (a + P - b) % P;
    assert((a + modulus() - b) % modulus() == (a - b) % modulus()) by {
        lemma_mod_add_multiples_vanish(a - b, modulus());
    }
    c
}

/// Product of two field elements, formed in 64 bits before reduction.
pub fn mul_mod(a: i64, b: i64) -> (c: i64)
    requires
        is_reduced(a as int),
        is_reduced(b as int),
    ensures
        c == (a * b) % modulus(),
        is_reduced(c as int),
{
    assert(0 <= a * b <= 2013265920 * 2013265920) by (nonlinear_arith)
        requires
            0 <= a <= 2013265920,
            0 <= b <= 2013265920,
    ;
    (a * b) % P
}

} // verus!
