//! The calls into the field backend, which supplies the canonical roots of
//! unity and the inverses, and what is taken on trust of them.

use crate::field::{is_reduced, modulus};
use p3_baby_bear::BabyBear;
use p3_field::{AbstractField, Field, PrimeField32, TwoAdicField};
use vstd::prelude::*;

verus! {

/// The largest `k` such that `2^k` divides `P - 1`.
pub const TWO_ADICITY: usize = 27;

/// The canonical generator of the group of `2^bits`-th roots of unity, for
/// `bits` up to the two-adicity of the field. Each entry is the square of the
/// next one.
pub open spec fn two_adic_root(bits: nat) -> int {
    if bits == 0 {
        1
    } else if bits == 1 {
        0x78000000
    } else if bits == 2 {
        0x67055c21
    } else if bits == 3 {
        0x5ee99486
    } else if bits == 4 {
        0xbb4c4e4
    } else if bits == 5 {
        0x2d4cc4da
    } else if bits == 6 {
        0x669d6090
    } else if bits == 7 {
        0x17b56c64
    } else if bits == 8 {
        0x67456167
    } else if bits == 9 {
        0x688442f9
    } else if bits == 10 {
        0x145e952d
    } else if bits == 11 {
        0x4fe61226
    } else if bits == 12 {
        0x4c734715
    } else if bits == 13 {
        0x11c33e2a
    } else if bits == 14 {
        0x62c3d2b1
    } else if bits == 15 {
        0x77cad399
    } else if bits == 16 {
        0x54c131f4
    } else if bits == 17 {
        0x4cabd6a6
    } else if bits == 18 {
        0x5cf5713f
    } else if bits == 19 {
        0x3e9430e8
    } else if bits == 20 {
        0xba067a3
    } else if bits == 21 {
        0x18adc27d
    } else if bits == 22 {
        0x21fd55bc
    } else if bits == 23 {
        0x4b859b3d
    } else if bits == 24 {
        0x3bd57996
    } else if bits == 25 {
        0x4483d85a
    } else if bits == 26 {
        0x3a26eef8
    } else {
        0x1a427a41
    }
}

/// Calls `BabyBear::two_adic_generator` of the field backend and returns the
/// canonical representative of its result. The backend keeps one constant per
/// value of `bits` up to 27 and panics above; the contract repeats that list.
#[verifier::external_body]
pub(crate) fn backend_two_adic_generator(bits: usize) -> (g: i64)
    requires
        bits <= TWO_ADICITY,
    ensures
        g == two_adic_root(bits as nat),
{
    BabyBear::two_adic_generator(bits).as_canonical_u32() as i64
}

/// Calls `BabyBear::inverse` of the field backend on the element with
/// canonical representative `x`, and returns the canonical representative of
/// the result. The backend raises a nonzero element to the power `P - 2`,
/// which is its multiplicative inverse, and panics on zero.
#[verifier::external_body]
pub(crate) fn backend_inverse(x: i64) -> (r: i64)
    requires
        is_reduced(x as int),
        x != 0,
    ensures
        is_reduced(r as int),
        (x * r) % modulus() == 1,
{
    BabyBear::from_canonical_u32(x as u32).inverse().as_canonical_u32() as i64
}

/// Squaring a canonical generator gives the generator of the next smaller group.
pub proof fn lemma_two_adic_root_square(bits: nat)
    requires
        1 <= bits <= 27,
    ensures
        (two_adic_root(bits) * two_adic_root(bits)) % modulus() == two_adic_root((bits - 1) as nat),
        is_reduced(two_adic_root(bits)),
        two_adic_root(bits) != 0,
{
    if bits == 1 {
        assert((0x78000000 * 0x78000000) % 0x78000001 == 0x1);
    } else if bits == 2 {
        assert((0x67055c21 * 0x67055c21) % 0x78000001 == 0x78000000);
    } else if bits == 3 {
        assert((0x5ee99486 * 0x5ee99486) % 0x78000001 == 0x67055c21);
    } else if bits == 4 {
        assert((0xbb4c4e4 * 0xbb4c4e4) % 0x78000001 == 0x5ee99486);
    } else if bits == 5 {
        assert((0x2d4cc4da * 0x2d4cc4da) % 0x78000001 == 0xbb4c4e4);
    } else if bits == 6 {
        assert((0x669d6090 * 0x669d6090) % 0x78000001 == 0x2d4cc4da);
    } else if bits == 7 {
        assert((0x17b56c64 * 0x17b56c64) % 0x78000001 == 0x669d6090);
    } else if bits == 8 {
        assert((0x67456167 * 0x67456167) % 0x78000001 == 0x17b56c64);
    } else if bits == 9 {
        assert((0x688442f9 * 0x688442f9) % 0x78000001 == 0x67456167);
    } else if bits == 10 {
        assert((0x145e952d * 0x145e952d) % 0x78000001 == 0x688442f9);
    } else if bits == 11 {
        assert((0x4fe61226 * 0x4fe61226) % 0x78000001 == 0x145e952d);
    } else if bits == 12 {
        assert((0x4c734715 * 0x4c734715) % 0x78000001 == 0x4fe61226);
    } else if bits == 13 {
        assert((0x11c33e2a * 0x11c33e2a) % 0x78000001 == 0x4c734715);
    } else if bits == 14 {
        assert((0x62c3d2b1 * 0x62c3d2b1) % 0x78000001 == 0x11c33e2a);
    } else if bits == 15 {
        assert((0x77cad399 * 0x77cad399) % 0x78000001 == 0x62c3d2b1);
    } else if bits == 16 {
        assert((0x54c131f4 * 0x54c131f4) % 0x78000001 == 0x77cad399);
    } else if bits == 17 {
        assert((0x4cabd6a6 * 0x4cabd6a6) % 0x78000001 == 0x54c131f4);
    } else if bits == 18 {
        assert((0x5cf5713f * 0x5cf5713f) % 0x78000001 == 0x4cabd6a6);
    } else if bits == 19 {
        assert((0x3e9430e8 * 0x3e9430e8) % 0x78000001 == 0x5cf5713f);
    } else if bits == 20 {
        assert((0xba067a3 * 0xba067a3) % 0x78000001 == 0x3e9430e8);
    } else if bits == 21 {
        assert((0x18adc27d * 0x18adc27d) % 0x78000001 == 0xba067a3);
    } else if bits == 22 {
        assert((0x21fd55bc * 0x21fd55bc) % 0x78000001 == 0x18adc27d);
    } else if bits == 23 {
        assert((0x4b859b3d * 0x4b859b3d) % 0x78000001 == 0x21fd55bc);
    } else if bits == 24 {
        assert((0x3bd57996 * 0x3bd57996) % 0x78000001 == 0x4b859b3d);
    } else if bits == 25 {
        assert((0x4483d85a * 0x4483d85a) % 0x78000001 == 0x3bd57996);
    } else if bits == 26 {
        assert((0x3a26eef8 * 0x3a26eef8) % 0x78000001 == 0x4483d85a);
    } else {
        assert((0x1a427a41 * 0x1a427a41) % 0x78000001 == 0x3a26eef8);
    }
}

} // verus!
