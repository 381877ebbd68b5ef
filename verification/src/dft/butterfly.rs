//! The butterfly and the in-place stage that merges two transformed halves.

use crate::dft::model::{merge_halves, pointwise_product, twiddle};
use crate::field::{add_mod, all_reduced, as_ints, is_reduced, modulus, mul_mod, sub_mod};
use vstd::arithmetic::div_mod::*;
use vstd::arithmetic::power::*;
use vstd::prelude::*;

verus! {

/// The radix-2 butterfly `(a, b) -> (a + tw * b, a - tw * b)`.
pub fn butterfly(a: i64, b: i64, tw: i64) -> (r: (i64, i64))
    requires
        is_reduced(a as int),
        is_reduced(b as int),
        is_reduced(tw as int),
    ensures
        r.0 == (a + tw * b) % modulus(),
        r.1 == (a - tw * b) % modulus(),
        is_reduced(r.0 as int),
        is_reduced(r.1 as int),
{
    let bt = mul_mod(tw, b);
    proof {
        lemma_add_mod_noop(a as int, tw * b, modulus());
        lemma_sub_mod_noop(a as int, tw * b, modulus());
        lemma_small_mod(a as nat, modulus() as nat);
    }
    (add_mod(a, bt), sub_mod(a, bt))
}

/// Merges two transformed halves in place, deriving each twiddle factor from
/// the one before by a multiplication with `root`.
pub fn merge_by_root(top: &mut [i64], tail: &mut [i64], root: i64)
    requires
        old(top).len() == old(tail).len(),
        all_reduced(as_ints(old(top)@)),
        all_reduced(as_ints(old(tail)@)),
        is_reduced(root as int),
    ensures
        final(top).len() == old(top).len(),
        final(tail).len() == old(tail).len(),
        as_ints(final(top)@ + final(tail)@) == merge_halves(
            as_ints(old(top)@),
            as_ints(old(tail)@),
            root as int,
        ),
{
    let h = top.len();
    let ghost a = as_ints(top@);
    let ghost b = as_ints(tail@);
    let ghost merged = merge_halves(a, b, root as int);
    let mut tw: i64 = 1;
    let mut t: usize = 0;
    proof {
        lemma_pow0(root as int);
    }
    while t < h
        invariant
            t <= h,
            top.len() == h,
            tail.len() == h,
            a.len() == h,
            b.len() == h,
            a == as_ints(old(top)@),
            b == as_ints(old(tail)@),
            merged == merge_halves(a, b, root as int),
            is_reduced(root as int),
            all_reduced(a),
            all_reduced(b),
            tw == twiddle(root as int, t as nat),
            forall|i: int| 0 <= i < t ==> top@[i] == #[trigger] merged[i],
            forall|i: int| h <= i < h + t ==> tail@[i - h] == #[trigger] merged[i],
            forall|i: int| t <= i < h ==> #[trigger] top@[i] == a[i],
            forall|i: int| t <= i < h ==> #[trigger] tail@[i] == b[i],
        decreases h - t,
    {
        assert(is_reduced(a[t as int]));
        assert(is_reduced(b[t as int]));
        let (lo, hi) = butterfly(top[t], tail[t], tw);
        top[t] = lo;
        tail[t] = hi;
        proof {
            lemma_pow_adds(root as int, t as nat, 1);
            lemma_pow1(root as int);
            lemma_mul_mod_noop_left(pow(root as int, t as nat), root as int, modulus());
        }
        tw = mul_mod(tw, root);
        t += 1;
    }
    assert(as_ints(top@ + tail@) =~= merged);
}

/// The product of two buffers entry by entry: what stands between two
/// forward transforms and a backward transform in a cyclic convolution.
pub fn pointwise_mul(a: &[i64], b: &[i64]) -> (c: Vec<i64>)
    requires
        a.len() == b.len(),
        all_reduced(as_ints(a@)),
        all_reduced(as_ints(b@)),
    ensures
        c.len() == a.len(),
        as_ints(c@) == pointwise_product(as_ints(a@), as_ints(b@)),
        all_reduced(as_ints(c@)),
{
    let n = a.len();
    let mut c: Vec<i64> = Vec::with_capacity(n);
    let mut i: usize = 0;
    while i < n
        invariant
            i <= n,
            a.len() == n,
            b.len() == n,
            c.len() == i,
            all_reduced(as_ints(a@)),
            all_reduced(as_ints(b@)),
            forall|k: int| 0 <= k < i ==> #[trigger] c[k] == (a[k] * b[k]) % modulus(),
        decreases n - i,
    {
        assert(is_reduced(as_ints(a@)[i as int]));
        assert(is_reduced(as_ints(b@)[i as int]));
        c.push(mul_mod(a[i], b[i]));
        i += 1;
    }
    assert(as_ints(c@) =~= pointwise_product(as_ints(a@), as_ints(b@)));
    c
}

} // verus!
