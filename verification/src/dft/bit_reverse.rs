//! The bit-reversal permutation that puts a buffer into the order the
//! in-place butterfly stages consume.

use crate::dft::lengths::is_power_of_two;
use crate::dft::model::{bit_reversed, reverse_index};
use crate::field::{all_reduced, as_ints, is_reduced};
use vstd::prelude::*;

verus! {

/// Bit reversal maps indices below `n` to indices below `n`.
pub proof fn lemma_reverse_index_bound(n: nat, i: nat)
    requires
        is_power_of_two(n),
        i < n,
    ensures
        reverse_index(n, i) < n,
    decreases n,
{
    if n > 1 {
        let h = n / 2;
        if i < h {
            lemma_reverse_index_bound(h, i);
        } else {
            lemma_reverse_index_bound(h, (i - h) as nat);
        }
    }
}

/// Bit reversal read from the other end: the lowest digit of `i` becomes the
/// highest digit of the result.
pub proof fn lemma_reverse_index_low_digit(n: nat, i: nat)
    requires
        is_power_of_two(n),
        n >= 2,
        i < n,
    ensures
        reverse_index(n, i) == (i % 2) * (n / 2) + reverse_index(n / 2, i / 2),
    decreases n,
{
    let h = n / 2;
    assert(is_power_of_two(h));
    if h >= 2 {
        let q = h / 2;
        assert(h == 2 * q);
        if i < h {
            lemma_reverse_index_low_digit(h, i);
            assert(reverse_index(n, i) == 2 * ((i % 2) * q + reverse_index(q, i / 2)));
            assert(2 * ((i % 2) * q) == (i % 2) * h) by (nonlinear_arith)
                requires
                    h == 2 * q,
            ;
            assert(i / 2 < q);
        } else {
            let k = (i - h) as nat;
            lemma_reverse_index_low_digit(h, k);
            assert(k % 2 == i % 2);
            assert(i / 2 == k / 2 + q);
            assert(reverse_index(n, i) == 2 * ((k % 2) * q + reverse_index(q, k / 2)) + 1);
            assert(2 * ((k % 2) * q) == (i % 2) * h) by (nonlinear_arith)
                requires
                    h == 2 * q,
                    k % 2 == i % 2,
            ;
            assert(reverse_index(h, i / 2) == 2 * reverse_index(q, (i / 2 - q) as nat) + 1);
        }
    } else {
        assert(h == 1);
        assert(reverse_index(1, i / 2) == 0);
        assert(reverse_index(n, i) == i) by {
            assert(reverse_index(1, 0) == 0);
        }
        assert((i % 2) * 1 == i) by (nonlinear_arith)
            requires
                i < 2,
        ;
    }
}

/// Reversing the digits twice gives the index back.
pub proof fn lemma_reverse_index_involution(n: nat, i: nat)
    requires
        is_power_of_two(n),
        i < n,
    ensures
        reverse_index(n, reverse_index(n, i)) == i,
    decreases n,
{
    if n > 1 {
        let h = n / 2;
        let r = reverse_index(n, i);
        lemma_reverse_index_bound(n, i);
        lemma_reverse_index_low_digit(n, r);
        if i < h {
            lemma_reverse_index_bound(h, i);
            lemma_reverse_index_involution(h, i);
            let s = reverse_index(h, i);
            assert(r == 2 * s);
            assert(r % 2 == 0 && r / 2 == s);
            assert((r % 2) * h == 0) by (nonlinear_arith)
                requires
                    r % 2 == 0,
            ;
        } else {
            let k = (i - h) as nat;
            lemma_reverse_index_bound(h, k);
            lemma_reverse_index_involution(h, k);
            let s = reverse_index(h, k);
            assert(r == 2 * s + 1);
            assert(r % 2 == 1 && r / 2 == s);
            assert((r % 2) * h == h) by (nonlinear_arith)
                requires
                    r % 2 == 1,
            ;
        }
    }
}

/// Bit reversal permutes the entries, so it keeps them reduced.
pub proof fn lemma_bit_reversed_reduced(x: Seq<int>)
    requires
        is_power_of_two(x.len()),
        all_reduced(x),
    ensures
        all_reduced(bit_reversed(x)),
{
    assert forall|i: int| 0 <= i < x.len() implies is_reduced(#[trigger] bit_reversed(x)[i]) by {
        lemma_reverse_index_bound(x.len(), i as nat);
    }
}

/// Computes the bit reversal of `i` among `n` indices.
pub fn reversed_index(n: usize, i: usize) -> (r: usize)
    requires
        is_power_of_two(n as nat),
        i < n,
    ensures
        r == reverse_index(n as nat, i as nat),
        r < n,
{
    let mut r: usize = 0;
    let mut rest: usize = i;
    let mut m: usize = n;
    proof {
        lemma_reverse_index_bound(n as nat, i as nat);
        assert(r * m == 0) by (nonlinear_arith)
            requires
                r == 0,
        ;
    }
    while m > 1
        invariant
            is_power_of_two(m as nat),
            rest < m,
            reverse_index(n as nat, i as nat) == r * m + reverse_index(m as nat, rest as nat),
            reverse_index(n as nat, i as nat) < n,
        decreases m,
    {
        let digit = rest % 2;
        proof {
            let h = (m / 2) as int;
            lemma_reverse_index_low_digit(m as nat, rest as nat);
            assert((2 * r + digit) * h == r * m + digit * h) by (nonlinear_arith)
                requires
                    m == 2 * h,
            ;
            assert(2 * r + digit <= (2 * r + digit) * h) by (nonlinear_arith)
                requires
                    h >= 1,
                    2 * r + digit >= 0,
            ;
        }
        r = 2 * r + digit;
        rest = rest / 2;
        m = m / 2;
    }
    assert(r * 1 == r) by (nonlinear_arith);
    r
}

/// Permutes the buffer in place by bit reversal of the indices.
pub fn bit_reverse_permute(buf: &mut [i64])
    requires
        is_power_of_two(old(buf).len() as nat),
    ensures
        final(buf).len() == old(buf).len(),
        as_ints(final(buf)@) == bit_reversed(as_ints(old(buf)@)),
{
    let n = buf.len();
    let ghost orig = buf@;
    let mut i: usize = 0;
    while i < n
        invariant
            i <= n,
            buf.len() == n,
            orig.len() == n,
            is_power_of_two(n as nat),
            forall|k: int|
                0 <= k < n ==> #[trigger] buf@[k] == if k < i || reverse_index(
                    n as nat,
                    k as nat,
                ) < i {
                    orig[reverse_index(n as nat, k as nat) as int]
                } else {
                    orig[k]
                },
        decreases n - i,
    {
        let j = reversed_index(n, i);
        proof {
            lemma_reverse_index_involution(n as nat, i as nat);
            assert forall|k: int| 0 <= k < n && #[trigger] reverse_index(n as nat, k as nat) == i
                implies k == j by {
                lemma_reverse_index_involution(n as nat, k as nat);
            }
        }
        if i < j {
            let a = buf[i];
            let b = buf[j];
            buf[i] = b;
            buf[j] = a;
        }
        i += 1;
    }
    assert forall|k: int| 0 <= k < n implies as_ints(buf@)[k] == bit_reversed(as_ints(orig))[k] by {
        lemma_reverse_index_bound(n as nat, k as nat);
    }
    assert(as_ints(buf@) =~= bit_reversed(as_ints(orig)));
}

} // verus!
