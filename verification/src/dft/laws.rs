//! What holds of the transforms taken together: a backward transform undoes
//! a forward one up to the factor `n`, and pointwise products of transforms
//! are transforms of cyclic convolutions.

use crate::congruence::{
    congruent, lemma_congruent_mul, lemma_congruent_pow, lemma_congruent_reduce,
    lemma_inverse_is_power, lemma_pow_unit_multiple,
};
use crate::dft::lengths::is_power_of_two;
use crate::dft::model::{
    convolution_term, cyclic_convolution, dft, dft_at, dft_term, pointwise_product, scaled,
};
use crate::dft::roots::{
    geometric_term, is_primitive_root, lemma_geometric_sum, lemma_primitive_root_order,
};
use crate::field::modulus;
use crate::sums::{
    lemma_sum_congruent, lemma_sum_exchange, lemma_sum_rotate, lemma_sum_scale, lemma_sum_single,
    sum,
};
use vstd::arithmetic::div_mod::*;
use vstd::arithmetic::mul::*;
use vstd::arithmetic::power::*;
use vstd::prelude::*;

verus! {

/// **Round trip.** Transforming with a primitive root of unity and then with
/// its inverse gives every entry back multiplied by the length: the backward
/// transform does not normalise.
pub proof fn lemma_round_trip(u: Seq<int>, w: int, w_inv: int)
    requires
        is_power_of_two(u.len()),
        is_primitive_root(w, u.len()),
        congruent(w * w_inv, 1),
    ensures
        dft(dft(u, w), w_inv) == scaled(u, u.len() as int),
{
    let n = u.len();
    assert forall|i: int| 0 <= i < n implies dft(dft(u, w), w_inv)[i] == scaled(u, n as int)[i] by {
        lemma_round_trip_at(u, w, w_inv, i as nat);
    }
    assert(dft(dft(u, w), w_inv) =~= scaled(u, n as int));
}

/// The round trip at one index.
///
/// The double sum over `j` and `k` of `u[k] * w^(k * j) * w_inv^(j * i)` is
/// summed first by rows `j`, which gives the transform of the transform, and
/// then by columns `k`, where each column is `u[k]` times a geometric sum
/// that is `n` for `k == i` and zero for every other `k`.
proof fn lemma_round_trip_at(u: Seq<int>, w: int, w_inv: int, i: nat)
    requires
        is_power_of_two(u.len()),
        is_primitive_root(w, u.len()),
        congruent(w * w_inv, 1),
        i < u.len(),
    ensures
        dft_at(dft(u, w), w_inv, i) == (u[i as int] * u.len()) % modulus(),
{
    let n = u.len();
    let d = dft(u, w);
    let r = w_inv;
    let outer = dft_term(d, r, i);
    let cell = |j: nat, k: nat| u[k as int] * (pow(w, k * j) * pow(r, j * i));
    let rows = |j: nat| sum(|k: nat| cell(j, k), n);
    let cols = |k: nat| sum(|j: nat| cell(j, k), n);
    let only = |k: nat| if k == i { u[i as int] * n } else { 0 };
    if n == 1 {
        lemma_pow0(w);
        lemma_pow0(r);
    } else {
        lemma_primitive_root_order(w, n);
        lemma_inverse_is_power(w, r, n);
    }
    // Each term of the outer sum is a row of the double sum.
    assert forall|j: nat| j < n implies #[trigger] outer(j) % modulus() == rows(j) % modulus() by {
        let c = pow(r, j * i);
        let inner = dft_term(u, w, j);
        let row = |k: nat| cell(j, k);
        assert forall|k: nat| k < n implies #[trigger] row(k) == c * inner(k) by {
            let a = u[k as int];
            let b = pow(w, k * j);
            assert(a * (b * c) == c * (a * b)) by (nonlinear_arith);
        }
        lemma_sum_scale(inner, row, c, n);
        lemma_congruent_reduce(sum(inner, n));
        lemma_congruent_mul(d[j as int], sum(inner, n), c, c);
        lemma_mul_is_commutative(sum(inner, n), c);
    }
    lemma_sum_congruent(outer, rows, n, modulus());
    lemma_sum_exchange(cell, rows, cols, n, n);
    // Each column is an entry of `u` times a geometric sum.
    assert forall|k: nat| k < n implies #[trigger] cols(k) % modulus() == only(k) % modulus() by {
        let e: nat = k + (n - 1) as nat * i;
        let col = |j: nat| cell(j, k);
        let z = |j: nat| pow(w, k * j) * pow(r, j * i);
        let geo = geometric_term(w, e);
        assert forall|j: nat| j < n implies #[trigger] col(j) == u[k as int] * z(j) by {}
        lemma_sum_scale(z, col, u[k as int], n);
        assert forall|j: nat| j < n implies #[trigger] z(j) % modulus() == geo(j) % modulus() by {
            if n == 1 {
                assert(j * i == 0 && k * j == 0 && e * j == 0) by (nonlinear_arith)
                    requires
                        j == 0,
                ;
            } else {
                let m = (n - 1) as nat;
                lemma_congruent_pow(r, pow(w, m), j * i);
                lemma_pow_multiplies(w, m, j * i);
                lemma_pow_adds(w, k * j, m * (j * i));
                assert(k * j + m * (j * i) == e * j) by (nonlinear_arith)
                    requires
                        e == k + m * i,
                ;
                lemma_congruent_mul(
                    pow(w, k * j),
                    pow(w, k * j),
                    pow(r, j * i),
                    pow(w, m * (j * i)),
                );
            }
        }
        lemma_sum_congruent(z, geo, n, modulus());
        lemma_geometric_sum(w, e, n);
        assert((e % n == 0) == (k == i)) by {
            assert(e == n * i + (k - i)) by (nonlinear_arith)
                requires
                    e == k + (n - 1) * i,
            ;
            lemma_mod_multiples_vanish(i as int, k - i, n as int);
            if k >= i {
                lemma_small_mod((k - i) as nat, n);
            } else {
                lemma_mod_add_multiples_vanish(k - i, n as int);
                lemma_small_mod((n + k - i) as nat, n);
            }
        }
        let target: int = if k == i { n as int } else { 0 };
        assert(congruent(sum(z, n), target));
        lemma_congruent_mul(u[k as int], u[k as int], sum(z, n), target);
        assert(u[k as int] * target == only(k)) by (nonlinear_arith)
            requires
                target == if k == i { n as int } else { 0 },
                only(k) == if k == i { u[i as int] * n } else { 0 },
        ;
    }
    lemma_sum_congruent(cols, only, n, modulus());
    lemma_sum_single(only, i, n);
}

/// The transform of a cyclic convolution is the pointwise product of the
/// transforms, for any `w` whose power to the length is one.
pub proof fn lemma_convolution_transform(u: Seq<int>, v: Seq<int>, w: int)
    requires
        u.len() >= 1,
        v.len() == u.len(),
        congruent(pow(w, u.len()), 1),
    ensures
        dft(cyclic_convolution(u, v), w) == pointwise_product(dft(u, w), dft(v, w)),
{
    let n = u.len();
    assert forall|j: int| 0 <= j < n implies dft(cyclic_convolution(u, v), w)[j]
        == pointwise_product(dft(u, w), dft(v, w))[j] by {
        lemma_convolution_transform_at(u, v, w, j as nat);
    }
    assert(dft(cyclic_convolution(u, v), w) =~= pointwise_product(dft(u, w), dft(v, w)));
}

/// The transform of a cyclic convolution at one index.
///
/// The double sum over `i` and `a` of `u[a] * v[(i - a) mod n] * w^(i * j)` is
/// summed first by rows `i`, which gives the transform of the convolution,
/// and then by columns `a`, where each column is the term `u[a] * w^(a * j)`
/// times a rotation of the sum for `v`.
proof fn lemma_convolution_transform_at(u: Seq<int>, v: Seq<int>, w: int, j: nat)
    requires
        u.len() >= 1,
        v.len() == u.len(),
        congruent(pow(w, u.len()), 1),
        j < u.len(),
    ensures
        dft_at(cyclic_convolution(u, v), w, j) == (dft_at(u, w, j) * dft_at(v, w, j)) % modulus(),
{
    let n = u.len();
    let c = cyclic_convolution(u, v);
    let outer = dft_term(c, w, j);
    let ut = dft_term(u, w, j);
    let vt = dft_term(v, w, j);
    let su = sum(ut, n);
    let sv = sum(vt, n);
    let cell = |i: nat, a: nat| (u[a as int] * v[(n + i - a) % (n as int)]) * pow(w, i * j);
    let rows = |i: nat| sum(|a: nat| cell(i, a), n);
    let cols = |a: nat| sum(|i: nat| cell(i, a), n);
    let target = |a: nat| sv * ut(a);
    // Each term of the outer sum is a row of the double sum.
    assert forall|i: nat| i < n implies #[trigger] outer(i) % modulus() == rows(i) % modulus() by {
        let p = pow(w, i * j);
        let inner = convolution_term(u, v, i);
        let row = |a: nat| cell(i, a);
        assert forall|a: nat| a < n implies #[trigger] row(a) == p * inner(a) by {
            lemma_mul_is_commutative(inner(a), p);
        }
        lemma_sum_scale(inner, row, p, n);
        lemma_congruent_reduce(sum(inner, n));
        lemma_congruent_mul(c[i as int], sum(inner, n), p, p);
        lemma_mul_is_commutative(sum(inner, n), p);
    }
    lemma_sum_congruent(outer, rows, n, modulus());
    lemma_sum_exchange(cell, rows, cols, n, n);
    // Each column is a term of the transform of `u` times the transform of `v`.
    assert forall|a: nat| a < n implies #[trigger] cols(a) % modulus() == target(a) % modulus() by {
        let col = |i: nat| cell(i, a);
        let rot = |i: nat| vt(if i < a { (i + n - a) as nat } else { (i - a) as nat });
        let shifted = |i: nat| ut(a) * rot(i);
        assert forall|i: nat| i < n implies #[trigger] col(i) % modulus() == shifted(i)
            % modulus() by {
            let b: nat = if i < a { (i + n - a) as nat } else { (i - a) as nat };
            assert((n + i - a) % (n as int) == b) by {
                if i < a {
                    lemma_small_mod(b, n);
                } else {
                    lemma_mod_add_multiples_vanish(i - a, n as int);
                    lemma_small_mod(b, n);
                }
            }
            let x = u[a as int];
            let y = v[b as int];
            let pa = pow(w, a * j);
            let pb = pow(w, b * j);
            lemma_pow_adds(w, a * j, b * j);
            if i < a {
                assert(a * j + b * j == i * j + n * j) by (nonlinear_arith)
                    requires
                        a + b == i + n,
                ;
                lemma_pow_adds(w, i * j, n * j);
                lemma_pow_unit_multiple(w, n, j);
                lemma_congruent_mul(pow(w, i * j), pow(w, i * j), pow(w, n * j), 1);
            } else {
                assert(a * j + b * j == i * j) by (nonlinear_arith)
                    requires
                        a + b == i,
                ;
            }
            assert(congruent(pow(w, i * j), pa * pb));
            lemma_congruent_mul(x * y, x * y, pow(w, i * j), pa * pb);
            assert((x * y) * (pa * pb) == (x * pa) * (y * pb)) by (nonlinear_arith);
        }
        lemma_sum_congruent(col, shifted, n, modulus());
        lemma_sum_scale(rot, shifted, ut(a), n);
        lemma_sum_rotate(vt, rot, a, n);
        lemma_mul_is_commutative(ut(a), sv);
    }
    lemma_sum_congruent(cols, target, n, modulus());
    lemma_sum_scale(ut, target, sv, n);
    lemma_mul_is_commutative(sv, su);
    lemma_mul_mod_noop(su, sv, modulus());
}

/// **Convolution theorem.** Transforming two sequences with a primitive root
/// of unity, multiplying the transforms entry by entry, and transforming the
/// products with the inverse root gives the cyclic convolution of the two,
/// every entry multiplied by the length.
pub proof fn lemma_convolution_theorem(u: Seq<int>, v: Seq<int>, w: int, w_inv: int)
    requires
        is_power_of_two(u.len()),
        v.len() == u.len(),
        is_primitive_root(w, u.len()),
        congruent(w * w_inv, 1),
    ensures
        dft(pointwise_product(dft(u, w), dft(v, w)), w_inv) == scaled(
            cyclic_convolution(u, v),
            u.len() as int,
        ),
{
    let n = u.len();
    if n == 1 {
        lemma_pow1(w);
        lemma_pow0(w);
        assert forall|j: int| 0 <= j < n implies dft(cyclic_convolution(u, v), w)[j]
            == pointwise_product(dft(u, w), dft(v, w))[j] by {
            lemma_single_convolution(u, v, w);
        }
        assert(dft(cyclic_convolution(u, v), w) =~= pointwise_product(dft(u, w), dft(v, w)));
    } else {
        lemma_primitive_root_order(w, n);
        lemma_convolution_transform(u, v, w);
    }
    lemma_round_trip(cyclic_convolution(u, v), w, w_inv);
}

/// For single entries the transform is the entry reduced, and the convolution
/// is the product.
proof fn lemma_single_convolution(u: Seq<int>, v: Seq<int>, w: int)
    requires
        u.len() == 1,
        v.len() == 1,
    ensures
        dft_at(cyclic_convolution(u, v), w, 0) == (dft_at(u, w, 0) * dft_at(v, w, 0)) % modulus(),
{
    let c = cyclic_convolution(u, v);
    lemma_pow0(w);
    assert(0 * 0 == 0);
    assert(sum(dft_term(u, w, 0), 1) == u[0]) by {
        assert(sum(dft_term(u, w, 0), 0) == 0);
        assert(u[0] * 1 == u[0]);
    }
    assert(sum(dft_term(v, w, 0), 1) == v[0]) by {
        assert(sum(dft_term(v, w, 0), 0) == 0);
        assert(v[0] * 1 == v[0]);
    }
    assert(sum(dft_term(c, w, 0), 1) == c[0]) by {
        assert(sum(dft_term(c, w, 0), 0) == 0);
        assert(c[0] * 1 == c[0]);
    }
    assert(sum(convolution_term(u, v, 0), 1) == u[0] * v[0]) by {
        assert(sum(convolution_term(u, v, 0), 0) == 0);
        assert((1 + 0 - 0) % 1 == 0);
    }
    lemma_mod_twice(u[0] * v[0], modulus());
    lemma_mul_mod_noop(u[0], v[0], modulus());
}

} // verus!
