//! Proof that the butterfly network computes the discrete Fourier transform
//! whenever it is driven by a primitive root of unity.

use crate::congruence::{
    congruent, lemma_congruent_add, lemma_congruent_mul, lemma_congruent_pow,
    lemma_congruent_reduce, lemma_congruent_sub, lemma_pow_unit_multiple,
};
use crate::dft::bit_reverse::lemma_reverse_index_bound;
use crate::dft::lengths::is_power_of_two;
use crate::dft::model::{
    bit_reversed, butterfly_network, dft, dft_at, dft_term, merge_halves, reverse_index, twiddle,
};
use crate::dft::roots::{
    is_primitive_root, lemma_primitive_root_order, lemma_primitive_root_square,
};
use crate::field::{all_reduced, modulus};
use crate::sums::{lemma_sum_congruent, lemma_sum_even_odd, lemma_sum_scale, sum};
use vstd::arithmetic::div_mod::*;
use vstd::arithmetic::power::*;
use vstd::prelude::*;

verus! {

/// The entries of `x` at even indices.
pub open spec fn evens(x: Seq<int>) -> Seq<int> {
    Seq::new(x.len() / 2, |i: int| x[2 * i])
}

/// The entries of `x` at odd indices.
pub open spec fn odds(x: Seq<int>) -> Seq<int> {
    Seq::new(x.len() / 2, |i: int| x[2 * i + 1])
}

/// The `i`-th term of a half-length transform written with the root of the
/// full length: `x[i] * w^(2 * i * j)`.
pub open spec fn strided_term(x: Seq<int>, w: int, j: nat) -> spec_fn(nat) -> int {
    |i: nat| x[i as int] * pow(w, 2 * i * j)
}

/// Bit reversal sends the even-indexed entries to the first half and the
/// odd-indexed entries to the second, each half bit-reversed in turn.
pub proof fn lemma_bit_reversed_halves(x: Seq<int>)
    requires
        is_power_of_two(x.len()),
        x.len() >= 2,
    ensures
        bit_reversed(x).subrange(0, (x.len() / 2) as int) == bit_reversed(evens(x)),
        bit_reversed(x).subrange((x.len() / 2) as int, x.len() as int) == bit_reversed(odds(x)),
{
    let n = x.len();
    let h = n / 2;
    assert(is_power_of_two(h));
    assert forall|i: int| 0 <= i < h implies bit_reversed(x).subrange(0, h as int)[i]
        == bit_reversed(evens(x))[i] by {
        lemma_reverse_index_bound(h, i as nat);
    }
    assert forall|i: int| 0 <= i < h implies bit_reversed(x).subrange(h as int, n as int)[i]
        == bit_reversed(odds(x))[i] by {
        lemma_reverse_index_bound(h, i as nat);
        assert(reverse_index(n, (h + i) as nat) == 2 * reverse_index(h, i as nat) + 1);
    }
    assert(bit_reversed(x).subrange(0, h as int) =~= bit_reversed(evens(x)));
    assert(bit_reversed(x).subrange(h as int, n as int) =~= bit_reversed(odds(x)));
}

/// A half-length sum written with the full-length root agrees, modulo `P`,
/// with the half-length transform at the output index taken modulo the half
/// length.
pub proof fn lemma_strided_sum(x: Seq<int>, w: int, j: nat, t: nat)
    requires
        congruent(pow(w, 2 * x.len()), 1),
        j == t || j == t + x.len(),
    ensures
        congruent(
            sum(strided_term(x, w, j), x.len()),
            sum(dft_term(x, (w * w) % modulus(), t), x.len()),
        ),
{
    let h = x.len();
    let w2 = (w * w) % modulus();
    let f = strided_term(x, w, j);
    let g = dft_term(x, w2, t);
    assert forall|i: nat| i < h implies #[trigger] f(i) % modulus() == g(i) % modulus() by {
        let e = i * t;
        lemma_congruent_reduce(w * w);
        lemma_congruent_pow(w2, w * w, e);
        lemma_pow_distributes(w, w, e);
        lemma_pow_adds(w, e, e);
        assert(congruent(pow(w2, e), pow(w, e + e)));
        if j == t {
            assert(2 * i * j == e + e) by (nonlinear_arith)
                requires
                    e == i * t,
                    j == t,
            ;
        } else {
            assert(2 * i * j == (e + e) + (2 * h) * i) by (nonlinear_arith)
                requires
                    e == i * t,
                    j == t + h,
            ;
            lemma_pow_adds(w, e + e, (2 * h) * i);
            lemma_pow_unit_multiple(w, 2 * h, i);
            lemma_congruent_mul(pow(w, e + e), pow(w, e + e), pow(w, (2 * h) * i), 1);
        }
        assert(congruent(pow(w, 2 * i * j), pow(w2, e)));
        lemma_congruent_mul(x[i as int], x[i as int], pow(w, 2 * i * j), pow(w2, e));
    }
    lemma_sum_congruent(f, g, h, modulus());
}

/// The sum for output `j` splits into the even-indexed terms and `w^j` times
/// the odd-indexed terms.
pub proof fn lemma_dft_sum_split(x: Seq<int>, w: int, j: nat)
    requires
        x.len() % 2 == 0,
    ensures
        sum(dft_term(x, w, j), x.len()) == sum(strided_term(evens(x), w, j), x.len() / 2) + pow(
            w,
            j,
        ) * sum(strided_term(odds(x), w, j), x.len() / 2),
{
    let h = x.len() / 2;
    let f = dft_term(x, w, j);
    let e = strided_term(evens(x), w, j);
    let o = strided_term(odds(x), w, j);
    let shifted = |i: nat| f(2 * i + 1);
    assert forall|i: nat| i < h implies #[trigger] shifted(i) == pow(w, j) * o(i) by {
        assert((2 * i + 1) * j == 2 * i * j + j) by (nonlinear_arith);
        lemma_pow_adds(w, 2 * i * j, j);
        let a = x[(2 * i + 1) as int];
        let b = pow(w, 2 * i * j);
        let c = pow(w, j);
        assert(a * (b * c) == c * (a * b)) by (nonlinear_arith);
    }
    lemma_sum_scale(o, shifted, pow(w, j), h);
    assert forall|i: nat| i < h implies #[trigger] e(i) == f(2 * i) by {}
    lemma_sum_even_odd(f, e, shifted, h);
}

/// One butterfly stage on the transforms of the even-indexed and odd-indexed
/// entries gives the transform of the whole.
pub proof fn lemma_merge_step(x: Seq<int>, w: int, j: nat)
    requires
        is_power_of_two(x.len()),
        x.len() >= 2,
        is_primitive_root(w, x.len()),
        j < x.len(),
    ensures
        merge_halves(
            dft(evens(x), (w * w) % modulus()),
            dft(odds(x), (w * w) % modulus()),
            w,
        )[j as int] == dft_at(x, w, j),
{
    let n = x.len();
    let h = n / 2;
    let w2 = (w * w) % modulus();
    let t: nat = if j < h { j } else { (j - h) as nat };
    let se = sum(strided_term(evens(x), w, j), h);
    let so = sum(strided_term(odds(x), w, j), h);
    let a = dft_at(evens(x), w2, t);
    let b = dft_at(odds(x), w2, t);
    lemma_primitive_root_order(w, n);
    lemma_strided_sum(evens(x), w, j, t);
    lemma_strided_sum(odds(x), w, j, t);
    lemma_dft_sum_split(x, w, j);
    lemma_congruent_reduce(sum(dft_term(evens(x), w2, t), h));
    lemma_congruent_reduce(sum(dft_term(odds(x), w2, t), h));
    lemma_congruent_reduce(pow(w, t));
    assert(congruent(a, se));
    assert(congruent(b, so));
    lemma_congruent_mul(twiddle(w, t), pow(w, t), b, so);
    if j < h {
        lemma_congruent_add(a, se, twiddle(w, t) * b, pow(w, t) * so);
    } else {
        lemma_pow_adds(w, t, h);
        assert(congruent(pow(w, h), -1));
        lemma_congruent_mul(pow(w, t), pow(w, t), pow(w, h), -1);
        lemma_congruent_mul(pow(w, j), pow(w, t) * (-1), so, so);
        assert((pow(w, t) * (-1)) * so == -(pow(w, t) * so)) by (nonlinear_arith);
        lemma_congruent_sub(a, se, twiddle(w, t) * b, pow(w, t) * so);
        lemma_congruent_add(se, se, -(pow(w, t) * so), pow(w, j) * so);
    }
}

/// Driven by a primitive root of unity of the buffer's length, the butterfly
/// network computes the discrete Fourier transform.
pub proof fn lemma_network_is_dft(x: Seq<int>, w: int)
    requires
        is_power_of_two(x.len()),
        is_primitive_root(w, x.len()),
        all_reduced(x),
    ensures
        butterfly_network(x, w) == dft(x, w),
    decreases x.len(),
{
    let n = x.len();
    if n == 1 {
        lemma_pow0(w);
        assert(bit_reversed(x) =~= x);
        assert(sum(dft_term(x, w, 0), 1) == x[0]) by {
            assert(sum(dft_term(x, w, 0), 0) == 0);
            assert(x[0] * 1 == x[0]);
        }
        lemma_small_mod(x[0] as nat, modulus() as nat);
        assert(butterfly_network(x, w) =~= dft(x, w));
    } else {
        let h = n / 2;
        let w2 = (w * w) % modulus();
        assert(is_power_of_two(h));
        lemma_bit_reversed_halves(x);
        lemma_primitive_root_square(w, n);
        lemma_network_is_dft(evens(x), w2);
        lemma_network_is_dft(odds(x), w2);
        let merged = merge_halves(dft(evens(x), w2), dft(odds(x), w2), w);
        assert(butterfly_network(x, w) == merged);
        assert forall|j: int| 0 <= j < n implies merged[j] == dft(x, w)[j] by {
            lemma_merge_step(x, w, j as nat);
        }
        assert(merged =~= dft(x, w));
    }
}

} // verus!
