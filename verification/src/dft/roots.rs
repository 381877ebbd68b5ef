//! Primitive roots of unity of two-power order: what makes one, that the
//! canonical roots of the field are such, and the sums of their powers.

use crate::backend::{lemma_two_adic_root_square, two_adic_root};
use crate::congruence::{
    congruent, lemma_congruent_add, lemma_congruent_mul, lemma_congruent_pow,
    lemma_congruent_reduce, lemma_minus_one_odd_power, lemma_minus_one_square,
    lemma_pow_unit_multiple,
};
use crate::dft::lengths::{is_power_of_two, is_supported_length, lemma_supported_log, log2};
use crate::field::modulus;
use crate::sums::{lemma_sum_congruent, lemma_sum_const, lemma_sum_even_odd, lemma_sum_scale, sum};
use vstd::arithmetic::div_mod::*;
use vstd::arithmetic::mul::*;
use vstd::arithmetic::power::*;
use vstd::arithmetic::power2::*;
use vstd::prelude::*;

verus! {

/// `w` is a primitive `n`-th root of unity modulo `P`, for `n` a power of
/// two: its `n/2`-th power is `-1`. Its `n`-th power is then one
/// (`lemma_primitive_root_order`) and no smaller positive power is
/// (`lemma_primitive_root_minimal`). For `n == 1` every `w` qualifies.
pub open spec fn is_primitive_root(w: int, n: nat) -> bool {
    n >= 2 ==> pow(w, n / 2) % modulus() == modulus() - 1
}

/// A primitive `n`-th root of unity has `n`-th power one.
pub proof fn lemma_primitive_root_order(w: int, n: nat)
    requires
        n >= 2,
        n % 2 == 0,
        is_primitive_root(w, n),
    ensures
        congruent(pow(w, n), 1),
{
    let h = n / 2;
    lemma_pow_adds(w, h, h);
    assert(congruent(pow(w, h), -1));
    lemma_minus_one_square(pow(w, h));
}

/// The square of a primitive `n`-th root, reduced, is a primitive `n/2`-th root.
pub proof fn lemma_primitive_root_square(w: int, n: nat)
    requires
        is_power_of_two(n),
        n >= 2,
        is_primitive_root(w, n),
    ensures
        is_primitive_root((w * w) % modulus(), n / 2),
{
    let h = n / 2;
    if h >= 2 {
        let q = h / 2;
        let w2 = (w * w) % modulus();
        assert(is_power_of_two(h));
        assert(h == q + q);
        lemma_congruent_reduce(w * w);
        lemma_congruent_pow(w2, w * w, q);
        lemma_pow_distributes(w, w, q);
        lemma_pow_adds(w, q, q);
    }
}

/// The inverse of a primitive root of unity is a primitive root of the same
/// order.
pub proof fn lemma_inverse_root_primitive(w: int, w_inv: int, n: nat)
    requires
        is_primitive_root(w, n),
        congruent(w * w_inv, 1),
    ensures
        is_primitive_root(w_inv, n),
{
    if n >= 2 {
        let h = n / 2;
        lemma_pow_distributes(w, w_inv, h);
        lemma_congruent_pow(w * w_inv, 1, h);
        lemma1_pow(h);
        assert(congruent(pow(w, h), -1));
        lemma_congruent_mul(pow(w, h), -1, pow(w_inv, h), pow(w_inv, h));
        assert(congruent((-1) * pow(w_inv, h), 1));
        lemma_congruent_mul(-1, -1, (-1) * pow(w_inv, h), 1);
        assert((-1) * ((-1) * pow(w_inv, h)) == pow(w_inv, h)) by (nonlinear_arith);
    }
}

/// The canonical generator for `2^bits` elements is a primitive root of
/// unity of that order.
pub proof fn lemma_two_adic_root_primitive(bits: nat)
    requires
        1 <= bits <= 27,
    ensures
        is_primitive_root(two_adic_root(bits), pow2(bits)),
        pow2(bits) >= 2,
    decreases bits,
{
    let g = two_adic_root(bits);
    let e = pow2((bits - 1) as nat);
    lemma_pow2_unfold(bits);
    lemma_pow2_pos((bits - 1) as nat);
    assert(pow2(bits) / 2 == e);
    if bits == 1 {
        lemma2_to64();
        lemma_pow1(g);
    } else {
        let d = pow2((bits - 2) as nat);
        lemma_pow2_unfold((bits - 1) as nat);
        lemma_two_adic_root_primitive((bits - 1) as nat);
        lemma_two_adic_root_square(bits);
        assert(e / 2 == d);
        lemma_pow_adds(g, d, d);
        lemma_pow_distributes(g, g, d);
        lemma_congruent_reduce(g * g);
        lemma_congruent_pow((g * g) % modulus(), g * g, d);
    }
}

/// The element that the field backend names as generator of the
/// multiplicative group, from which the canonical roots of unity derive.
pub open spec fn group_generator() -> int {
    31
}

/// The canonical generator for `2^bits` elements is the group generator
/// raised to the cofactor `(P - 1) / 2^bits`, which is `15 * 2^(27 - bits)`.
pub proof fn lemma_two_adic_root_cofactor_power(bits: nat)
    requires
        bits <= 27,
    ensures
        two_adic_root(bits) == pow(group_generator(), 15 * pow2((27 - bits) as nat)) % modulus(),
        15 * pow2((27 - bits) as nat) * pow2(bits) == modulus() - 1,
    decreases 27 - bits,
{
    let g = group_generator();
    lemma2_to64();
    if bits == 27 {
        lemma_pow1(g);
        lemma_pow_adds(g, 1, 1);
        lemma_pow_adds(g, 2, 2);
        lemma_pow_adds(g, 4, 4);
        lemma_pow_adds(g, 8, 4);
        lemma_pow_adds(g, 12, 2);
        lemma_pow_adds(g, 14, 1);
        let (g2, g4, g8, g12, g14) = (pow(g, 2), pow(g, 4), pow(g, 8), pow(g, 12), pow(g, 14));
        assert(g2 == 961);
        assert(g4 == 923521) by (nonlinear_arith)
            requires
                g4 == g2 * g2,
                g2 == 961,
        ;
        assert(g8 == 852891037441) by (nonlinear_arith)
            requires
                g8 == g4 * g4,
                g4 == 923521,
        ;
        assert(g12 == 787662783788549761) by (nonlinear_arith)
            requires
                g12 == g8 * g4,
                g8 == 852891037441,
                g4 == 923521,
        ;
        assert(g14 == 756943935220796320321) by (nonlinear_arith)
            requires
                g14 == g12 * g2,
                g12 == 787662783788549761,
                g2 == 961,
        ;
        assert(pow(g, 15) == 23465261991844685929951);
    } else {
        let e = 15 * pow2((26 - bits) as nat);
        lemma_two_adic_root_cofactor_power(bits + 1);
        lemma_two_adic_root_square(bits + 1);
        lemma_pow2_unfold((27 - bits) as nat);
        lemma_pow2_unfold(bits + 1);
        lemma_pow_adds(g, e, e);
        lemma_mul_mod_noop(pow(g, e), pow(g, e), modulus());
        assert(15 * pow2((27 - bits) as nat) * pow2(bits) == e * pow2(bits + 1))
            by (nonlinear_arith)
            requires
                pow2((27 - bits) as nat) == 2 * pow2((26 - bits) as nat),
                pow2(bits + 1) == 2 * pow2(bits),
                e == 15 * pow2((26 - bits) as nat),
        ;
    }
}

/// The canonical root of unity for a supported length `n` is the group
/// generator raised to the cofactor `(P - 1) / n`.
pub proof fn lemma_canonical_root_cofactor_power(n: nat)
    requires
        is_supported_length(n),
    ensures
        (modulus() - 1) % (n as int) == 0,
        two_adic_root(log2(n)) == pow(group_generator(), ((modulus() - 1) / (n as int)) as nat)
            % modulus(),
{
    let bits = log2(n);
    let c = 15 * pow2((27 - bits) as nat);
    lemma_supported_log(n);
    lemma_two_adic_root_cofactor_power(bits);
    assert(c * n == modulus() - 1);
    lemma_div_multiples_vanish(c as int, n as int);
    lemma_mod_multiples_basic(c as int, n as int);
    assert(n * c == c * n) by (nonlinear_arith);
}

/// The `j`-th term of the geometric sum of `w^e`: `w^(e * j)`.
pub open spec fn geometric_term(w: int, e: nat) -> spec_fn(nat) -> int {
    |j: nat| pow(w, e * j)
}

/// The powers of a root of unity other than one add up to zero, and those of
/// one add up to their number: for a primitive `n`-th root `w`, the sum of
/// `w^(e * j)` over `j < n` is `n` if `n` divides `e` and zero if not.
pub proof fn lemma_geometric_sum(w: int, e: nat, n: nat)
    requires
        is_power_of_two(n),
        is_primitive_root(w, n),
    ensures
        congruent(sum(geometric_term(w, e), n), if e % n == 0 { n as int } else { 0 }),
    decreases n,
{
    let f = geometric_term(w, e);
    if n == 1 {
        lemma_pow0(w);
        assert(e * 0 == 0);
        assert(sum(f, 1) == sum(f, 0) + f(0));
        assert(sum(f, 0) == 0);
    } else if e % n == 0 {
        let q = e / n;
        lemma_fundamental_div_mod(e as int, n as int);
        lemma_primitive_root_order(w, n);
        let one = |j: nat| 1int;
        assert forall|j: nat| j < n implies #[trigger] f(j) % modulus() == one(j) % modulus() by {
            assert(e * j == n * (q * j)) by (nonlinear_arith)
                requires
                    e == n * q,
            ;
            lemma_pow_unit_multiple(w, n, q * j);
        }
        lemma_sum_congruent(f, one, n, modulus());
        lemma_sum_const(one, 1, n);
    } else {
        let h = n / 2;
        let w2 = (w * w) % modulus();
        let c = pow(w, e);
        let ev = |j: nat| f(2 * j);
        let od = |j: nat| f(2 * j + 1);
        let g = geometric_term(w2, e);
        assert(is_power_of_two(h));
        lemma_sum_even_odd(f, ev, od, h);
        assert forall|j: nat| j < h implies #[trigger] od(j) == c * ev(j) by {
            assert(e * (2 * j + 1) == e * (2 * j) + e) by (nonlinear_arith);
            lemma_pow_adds(w, e * (2 * j), e);
            lemma_mul_is_commutative(pow(w, e * (2 * j)), c);
        }
        lemma_sum_scale(ev, od, c, h);
        assert forall|j: nat| j < h implies #[trigger] ev(j) % modulus() == g(j) % modulus() by {
            let d = e * j;
            assert(e * (2 * j) == d + d) by (nonlinear_arith)
                requires
                    d == e * j,
            ;
            lemma_pow_adds(w, d, d);
            lemma_pow_distributes(w, w, d);
            lemma_congruent_reduce(w * w);
            lemma_congruent_pow(w2, w * w, d);
        }
        lemma_sum_congruent(ev, g, h, modulus());
        let s = sum(ev, h);
        assert(sum(f, n) == (1 + c) * s) by (nonlinear_arith)
            requires
                sum(f, n) == s + c * s,
        ;
        if e % h != 0 {
            lemma_primitive_root_square(w, n);
            lemma_geometric_sum(w2, e, h);
            assert(congruent(s, 0));
            lemma_congruent_mul(1 + c, 1 + c, s, 0);
            assert((1 + c) * 0 == 0);
        } else {
            let q = e / h;
            lemma_fundamental_div_mod(e as int, h as int);
            assert(e == h * q);
            if q % 2 == 0 {
                let a = q / 2;
                assert(e == a * n) by (nonlinear_arith)
                    requires
                        e == h * q,
                        q == 2 * a,
                        n == 2 * h,
                ;
                lemma_mod_multiples_basic(a as int, n as int);
                assert(false);
            }
            lemma_pow_multiplies(w, h, q);
            assert(congruent(pow(w, h), -1));
            lemma_minus_one_odd_power(pow(w, h), q);
            assert(congruent(c, -1));
            lemma_congruent_add(1, 1, c, -1);
            lemma_congruent_mul(1 + c, 0, s, s);
            assert(0 * s == 0);
        }
    }
}

/// A primitive `n`-th root of unity has order exactly `n`: no smaller positive
/// power of it is one.
pub proof fn lemma_primitive_root_minimal(w: int, n: nat, k: nat)
    requires
        is_power_of_two(n),
        n < modulus(),
        is_primitive_root(w, n),
        0 < k < n,
    ensures
        !congruent(pow(w, k), 1),
{
    if congruent(pow(w, k), 1) {
        let f = geometric_term(w, k);
        let one = |j: nat| 1int;
        assert forall|j: nat| j < n implies #[trigger] f(j) % modulus() == one(j) % modulus() by {
            lemma_pow_unit_multiple(w, k, j);
        }
        lemma_sum_congruent(f, one, n, modulus());
        lemma_sum_const(one, 1, n);
        lemma_geometric_sum(w, k, n);
        lemma_small_mod(k, n);
        lemma_small_mod(n, modulus() as nat);
        assert(false);
    }
}

} // verus!
