//! Congruence modulo the prime, and how sums, products and powers keep it.

use crate::field::{is_reduced, modulus};
use vstd::arithmetic::div_mod::*;
use vstd::arithmetic::power::*;
use vstd::prelude::*;

verus! {

/// `a` and `b` stand for the same field element.
pub open spec fn congruent(a: int, b: int) -> bool {
    a % modulus() == b % modulus()
}

/// Congruence is kept by addition.
pub proof fn lemma_congruent_add(a: int, b: int, c: int, d: int)
    requires
        congruent(a, b),
        congruent(c, d),
    ensures
        congruent(a + c, b + d),
{
    lemma_add_mod_noop(a, c, modulus());
    lemma_add_mod_noop(b, d, modulus());
}

/// Congruence is kept by subtraction.
pub proof fn lemma_congruent_sub(a: int, b: int, c: int, d: int)
    requires
        congruent(a, b),
        congruent(c, d),
    ensures
        congruent(a - c, b - d),
{
    lemma_sub_mod_noop(a, c, modulus());
    lemma_sub_mod_noop(b, d, modulus());
}

/// Congruence is kept by multiplication.
pub proof fn lemma_congruent_mul(a: int, b: int, c: int, d: int)
    requires
        congruent(a, b),
        congruent(c, d),
    ensures
        congruent(a * c, b * d),
{
    lemma_mul_mod_noop(a, c, modulus());
    lemma_mul_mod_noop(b, d, modulus());
}

/// Congruence is kept by taking powers.
pub proof fn lemma_congruent_pow(a: int, b: int, e: nat)
    requires
        congruent(a, b),
    ensures
        congruent(pow(a, e), pow(b, e)),
{
    lemma_pow_mod_noop(a, e, modulus());
    lemma_pow_mod_noop(b, e, modulus());
}

/// A residue is congruent to the number it was reduced from.
pub proof fn lemma_congruent_reduce(a: int)
    ensures
        congruent(a % modulus(), a),
        is_reduced(a % modulus()),
{
    lemma_mod_twice(a, modulus());
}

/// Powers of an element whose `k`-th power is one: every multiple of `k` gives one.
pub proof fn lemma_pow_unit_multiple(w: int, k: nat, i: nat)
    requires
        congruent(pow(w, k), 1),
    ensures
        congruent(pow(w, k * i), 1),
{
    lemma_pow_multiplies(w, k, i);
    lemma_congruent_pow(pow(w, k), 1, i);
    lemma1_pow(i);
}

/// The square of `-1` is one.
pub proof fn lemma_minus_one_square(a: int)
    requires
        congruent(a, -1),
    ensures
        congruent(a * a, 1),
{
    lemma_congruent_mul(a, -1, a, -1);
}

/// An odd power of `-1` is `-1`.
pub proof fn lemma_minus_one_odd_power(a: int, q: nat)
    requires
        congruent(a, -1),
        q % 2 == 1,
    ensures
        congruent(pow(a, q), -1),
{
    let k = q / 2;
    lemma_pow_adds(a, k + k, 1);
    lemma_pow1(a);
    lemma_pow_adds(a, k, k);
    lemma_pow_distributes(a, a, k);
    lemma_minus_one_square(a);
    lemma_congruent_pow(a * a, 1, k);
    lemma1_pow(k);
    lemma_congruent_mul(pow(a, k + k), 1, a, -1);
}

/// The inverse of an element whose `n`-th power is one is its `(n - 1)`-th
/// power.
pub proof fn lemma_inverse_is_power(w: int, w_inv: int, n: nat)
    requires
        n >= 1,
        congruent(w * w_inv, 1),
        congruent(pow(w, n), 1),
    ensures
        congruent(w_inv, pow(w, (n - 1) as nat)),
{
    let a = pow(w, (n - 1) as nat);
    lemma_pow_adds(w, (n - 1) as nat, 1);
    lemma_pow1(w);
    lemma_congruent_mul(w_inv, w_inv, 1, a * w);
    assert(w_inv * (a * w) == a * (w * w_inv)) by (nonlinear_arith);
    lemma_congruent_mul(a, a, w * w_inv, 1);
}

} // verus!
