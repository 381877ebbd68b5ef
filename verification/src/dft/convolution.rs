//! Cyclic convolution by way of the transforms.

use crate::backend::two_adic_root;
use crate::dft::backward::backward_fft;
use crate::dft::butterfly::pointwise_mul;
use crate::dft::forward::forward_fft;
use crate::dft::laws::lemma_convolution_theorem;
use crate::dft::lengths::{is_supported_length, log2};
use crate::dft::model::{convolution_term, cyclic_convolution, dft, pointwise_product, scaled};
use crate::dft::table::{inverse_root, roots_of_unity_table};
use crate::field::{all_reduced, as_ints, modulus};
use crate::sums::sum;
use vstd::arithmetic::div_mod::*;
use vstd::prelude::*;

verus! {

/// The convolution of two single entries is their product.
proof fn lemma_single_convolution_scaled(u: Seq<int>, v: Seq<int>)
    requires
        u.len() == 1,
        v.len() == 1,
    ensures
        scaled(cyclic_convolution(u, v), 1) == pointwise_product(u, v),
{
    assert(sum(convolution_term(u, v, 0), 1) == u[0] * v[0]) by {
        assert(sum(convolution_term(u, v, 0), 0) == 0);
        assert((1 + 0 - 0) % 1 == 0);
    }
    lemma_mod_twice(u[0] * v[0], modulus());
    assert(scaled(cyclic_convolution(u, v), 1)[0] == pointwise_product(u, v)[0]) by {
        assert(cyclic_convolution(u, v)[0] * 1 == cyclic_convolution(u, v)[0]);
    }
    assert(scaled(cyclic_convolution(u, v), 1) =~= pointwise_product(u, v));
}

/// The cyclic convolution of `u` and `v`, every entry multiplied by their
/// length: both are transformed forward, the transforms multiplied entry by
/// entry, and the products transformed backward, which does not normalise.
pub fn convolve_scaled(u: Vec<i64>, v: Vec<i64>) -> (c: Vec<i64>)
    requires
        u.len() == v.len(),
        is_supported_length(u.len() as nat),
        all_reduced(as_ints(u@)),
        all_reduced(as_ints(v@)),
    ensures
        c.len() == u.len(),
        all_reduced(as_ints(c@)),
        as_ints(c@) == scaled(cyclic_convolution(as_ints(u@), as_ints(v@)), u.len() as int),
{
    let n = u.len();
    if n == 1 {
        proof {
            lemma_single_convolution_scaled(as_ints(u@), as_ints(v@));
        }
        return pointwise_mul(u.as_slice(), v.as_slice());
    }
    let mut a = u;
    let mut b = v;
    let ghost x = as_ints(a@);
    let ghost y = as_ints(b@);
    let ghost w = two_adic_root(log2(n as nat));
    let table = roots_of_unity_table(n);
    let root_inv = inverse_root(n);
    forward_fft(a.as_mut_slice(), table.as_slice());
    forward_fft(b.as_mut_slice(), table.as_slice());
    let mut c = pointwise_mul(a.as_slice(), b.as_slice());
    assert(as_ints(c@) == pointwise_product(dft(x, w), dft(y, w)));
    backward_fft(c.as_mut_slice(), root_inv);
    proof {
        lemma_convolution_theorem(x, y, w, root_inv as int);
    }
    c
}

} // verus!
