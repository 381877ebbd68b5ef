//! The backward transform, driven by a single root from which the twiddle
//! factors are derived as the recursion unwinds.

use crate::dft::bit_reverse::{bit_reverse_permute, lemma_bit_reversed_reduced};
use crate::dft::butterfly::merge_by_root;
use crate::dft::lengths::{is_power_of_two, is_supported_length};
use crate::dft::model::{
    bit_reversed, butterfly_network, dft, lemma_merge_network_reduced, merge_network,
};
use crate::dft::network::lemma_network_is_dft;
use crate::dft::roots::is_primitive_root;
use crate::field::{all_reduced, as_ints, is_reduced, mul_mod};
use vstd::prelude::*;

verus! {

/// Runs the butterfly stages on a buffer that is already in bit-reversed
/// order: both halves with the square of `root`, then the merge with `root`.
fn stages_by_root(buf: &mut [i64], root: i64)
    requires
        is_power_of_two(old(buf).len() as nat),
        all_reduced(as_ints(old(buf)@)),
        is_reduced(root as int),
    ensures
        final(buf).len() == old(buf).len(),
        as_ints(final(buf)@) == merge_network(as_ints(old(buf)@), root as int),
    decreases old(buf).len(),
{
    let n = buf.len();
    if n <= 1 {
        return ;
    }
    let h = n / 2;
    let root2 = mul_mod(root, root);
    let ghost y = as_ints(buf@);
    let (top, tail) = buf.split_at_mut(h);
    assert(as_ints(top@) =~= y.subrange(0, h as int));
    assert(as_ints(tail@) =~= y.subrange(h as int, n as int));
    stages_by_root(top, root2);
    stages_by_root(tail, root2);
    merge_by_root(top, tail, root);
}

/// Transforms `input` in place by the same butterfly network as the forward
/// transform, with the twiddle factors derived from `root_inv` alone.
///
/// Given the inverse of the root that a forward transform of this length was
/// taken with, or any other primitive root of unity of this order, the result
/// is the discrete Fourier transform with respect to it. Applied to a forward
/// transform it yields what was transformed, every entry multiplied by the
/// length: no normalisation is made. Any other `root_inv` yields what the
/// network computes from it, which is no transform.
pub fn backward_fft(input: &mut [i64], root_inv: i64)
    requires
        is_supported_length(old(input).len() as nat),
        all_reduced(as_ints(old(input)@)),
        is_reduced(root_inv as int),
    ensures
        final(input).len() == old(input).len(),
        all_reduced(as_ints(final(input)@)),
        as_ints(final(input)@) == butterfly_network(as_ints(old(input)@), root_inv as int),
        is_primitive_root(root_inv as int, old(input).len() as nat) ==> as_ints(final(input)@)
            == dft(as_ints(old(input)@), root_inv as int),
        old(input).len() == 1 ==> final(input)@ == old(input)@,
{
    let ghost x = as_ints(input@);
    if input.len() == 1 {
        assert(bit_reversed(x) =~= x);
        proof {
            lemma_network_is_dft(x, root_inv as int);
        }
        return ;
    }
    proof {
        lemma_bit_reversed_reduced(x);
        lemma_merge_network_reduced(bit_reversed(x), root_inv as int);
        if is_primitive_root(root_inv as int, x.len()) {
            lemma_network_is_dft(x, root_inv as int);
        }
    }
    bit_reverse_permute(input);
    stages_by_root(input, root_inv);
}

} // verus!
