//! What the transforms compute, as functions on sequences of integers:
//! the discrete Fourier transform, cyclic convolution, and the radix-2
//! butterfly network that the engine runs.

use crate::field::{all_reduced, modulus};
use crate::sums::sum;
use vstd::arithmetic::power::*;
use vstd::prelude::*;

verus! {

/// The `i`-th term of the transform's `j`-th output: `x[i] * w^(i * j)`.
pub open spec fn dft_term(x: Seq<int>, w: int, j: nat) -> spec_fn(nat) -> int {
    |i: nat| x[i as int] * pow(w, i * j)
}

/// Output `j` of the discrete Fourier transform of `x` with respect to `w`.
pub open spec fn dft_at(x: Seq<int>, w: int, j: nat) -> int {
    sum(dft_term(x, w, j), x.len()) % modulus()
}

/// The discrete Fourier transform of `x` with respect to `w`, reduced mod `P`.
pub open spec fn dft(x: Seq<int>, w: int) -> Seq<int> {
    Seq::new(x.len(), |j: int| dft_at(x, w, j as nat))
}

/// The elementwise product of two sequences, reduced mod `P`.
pub open spec fn pointwise_product(a: Seq<int>, b: Seq<int>) -> Seq<int> {
    Seq::new(a.len(), |j: int| (a[j] * b[j]) % modulus())
}

/// The `j`-th term of output `i` of a cyclic convolution.
pub open spec fn convolution_term(u: Seq<int>, v: Seq<int>, i: nat) -> spec_fn(nat) -> int {
    |j: nat| u[j as int] * v[((u.len() + i - j) % (u.len() as int))]
}

/// The cyclic convolution of `u` and `v`, reduced mod `P`.
pub open spec fn cyclic_convolution(u: Seq<int>, v: Seq<int>) -> Seq<int> {
    Seq::new(u.len(), |i: int| sum(convolution_term(u, v, i as nat), u.len()) % modulus())
}

/// Every entry of `x` multiplied by `c`, reduced mod `P`.
pub open spec fn scaled(x: Seq<int>, c: int) -> Seq<int> {
    Seq::new(x.len(), |i: int| (x[i] * c) % modulus())
}

/// The index whose binary digits, read over `log2(n)` places, are those of
/// `i` in the opposite order.
pub open spec fn reverse_index(n: nat, i: nat) -> nat
    decreases n,
{
    if n <= 1 {
        0
    } else if i < n / 2 {
        2 * reverse_index(n / 2, i)
    } else {
        2 * reverse_index(n / 2, (i - n / 2) as nat) + 1
    }
}

/// `x` with its entries permuted by bit reversal of their indices.
pub open spec fn bit_reversed(x: Seq<int>) -> Seq<int> {
    Seq::new(x.len(), |i: int| x[reverse_index(x.len(), i as nat) as int])
}

/// The twiddle factor `w^t`, reduced.
pub open spec fn twiddle(w: int, t: nat) -> int {
    pow(w, t) % modulus()
}

/// One butterfly stage: combines two transformed halves `a` and `b` into
/// `a[t] + w^t b[t]` in the first half and `a[t] - w^t b[t]` in the second.
pub open spec fn merge_halves(a: Seq<int>, b: Seq<int>, w: int) -> Seq<int> {
    Seq::new(
        a.len() + b.len(),
        |t: int|
            if t < a.len() {
                (a[t] + twiddle(w, t as nat) * b[t]) % modulus()
            } else {
                (a[t - a.len()] - twiddle(w, (t - a.len()) as nat) * b[t - a.len()]) % modulus()
            },
    )
}

/// The butterfly stages applied to a buffer whose two contiguous halves are
/// transformed first, each with respect to the square of `w`.
pub open spec fn merge_network(y: Seq<int>, w: int) -> Seq<int>
    decreases y.len(),
{
    if y.len() <= 1 {
        y
    } else {
        let h = (y.len() / 2) as int;
        let w2 = (w * w) % modulus();
        merge_halves(
            merge_network(y.subrange(0, h), w2),
            merge_network(y.subrange(h, y.len() as int), w2),
            w,
        )
    }
}

/// What the engine computes from `x` and `w`, whatever `w` is: bit reversal
/// followed by the butterfly stages.
pub open spec fn butterfly_network(x: Seq<int>, w: int) -> Seq<int> {
    merge_network(bit_reversed(x), w)
}

/// The network's output is reduced whenever its input is.
pub proof fn lemma_merge_network_reduced(y: Seq<int>, w: int)
    requires
        all_reduced(y),
    ensures
        all_reduced(merge_network(y, w)),
    decreases y.len(),
{
}

} // verus!
