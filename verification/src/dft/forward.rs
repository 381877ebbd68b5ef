//! The forward transform, driven by a precomputed table of twiddle factors.

use crate::dft::bit_reverse::{bit_reverse_permute, lemma_bit_reversed_reduced};
use crate::dft::butterfly::butterfly;
use crate::dft::lengths::{
    is_power_of_two, is_supported_length, lemma_pow2_is_power_of_two, lemma_supported_log, log2,
};
use crate::dft::model::{
    bit_reversed, dft, lemma_merge_network_reduced, merge_halves, merge_network, twiddle,
};
use crate::dft::network::lemma_network_is_dft;
use crate::dft::table::{is_root_table, root_table, table_root, table_view};
use crate::field::{all_reduced, as_ints, is_reduced, modulus};
use vstd::arithmetic::div_mod::*;
use vstd::arithmetic::power::*;
use vstd::arithmetic::power2::*;
use vstd::prelude::*;

verus! {

/// `row` holds the first powers of its first cell, one for each butterfly of
/// a stage with `row.len()` butterflies.
pub open spec fn is_twiddle_row(row: Seq<int>) -> bool {
    &&& row.len() >= 1
    &&& forall|j: int| 0 <= j < row.len() ==> #[trigger] row[j] == twiddle(row[0], (j + 1) as nat)
}

/// The stages of `t` from `k` on serve a buffer of length `m`: each is a
/// twiddle row for half the length left, built on the square of the root of
/// the stage before.
spec fn stages_linked(t: Seq<Seq<int>>, k: nat, m: nat) -> bool
    decreases m,
{
    if m <= 1 {
        true
    } else {
        &&& k < t.len()
        &&& t[k as int].len() == m / 2
        &&& is_twiddle_row(t[k as int])
        &&& m / 2 >= 2 ==> k + 1 < t.len() && t[(k + 1) as int][0] == (t[k as int][0]
            * t[k as int][0]) % modulus()
        &&& stages_linked(t, k + 1, m / 2)
    }
}

/// In a table for length `n`, the stages from `k` on serve the buffers of
/// length `n / 2^k` that the recursion reaches at depth `k`.
proof fn lemma_table_stages_linked(t: Seq<Seq<int>>, n: nat, k: nat)
    requires
        is_root_table(t, n),
        k <= log2(n),
    ensures
        stages_linked(t, k, n / pow2(k)),
        is_power_of_two(n / pow2(k)),
        n / pow2(k) >= 1,
    decreases log2(n) - k,
{
    let bits = log2(n);
    let m = n / pow2(k);
    let w = t[0][0];
    lemma_supported_log(n);
    lemma_pow2_subtracts(k, bits);
    lemma_pow2_is_power_of_two((bits - k) as nat);
    if k < bits {
        let e = pow2(k);
        lemma_pow2_unfold((bits - k) as nat);
        lemma_pow2_subtracts(k + 1, bits);
        assert(m / 2 == n / pow2(k + 1));
        lemma_table_stages_linked(t, n, k + 1);
        let row = t[k as int];
        assert(row[0] == pow(w, e) % modulus()) by {
            assert(e * (0 + 1) == e) by (nonlinear_arith);
        }
        assert forall|j: int| 0 <= j < row.len() implies #[trigger] row[j] == twiddle(
            row[0],
            (j + 1) as nat,
        ) by {
            lemma_pow_mod_noop(pow(w, e), (j + 1) as nat, modulus());
            lemma_pow_multiplies(w, e, (j + 1) as nat);
        }
        if m / 2 >= 2 {
            lemma_pow2_unfold((bits - k - 1) as nat);
            assert(k + 1 < bits);
            lemma_pow2_unfold(k + 1);
            assert(pow2(k + 1) * (0 + 1) == e + e) by (nonlinear_arith)
                requires
                    pow2(k + 1) == 2 * e,
            ;
            lemma_pow_adds(w, e, e);
            lemma_mul_mod_noop(pow(w, e), pow(w, e), modulus());
        }
    } else {
        lemma_pow2_pos(k);
        lemma_div_basics(n as int);
    }
}

/// Merges two transformed halves in place with the twiddle factors of a
/// table row.
pub fn merge_by_row(top: &mut [i64], tail: &mut [i64], row: &[i64])
    requires
        old(top).len() == old(tail).len(),
        old(top).len() == row.len(),
        all_reduced(as_ints(old(top)@)),
        all_reduced(as_ints(old(tail)@)),
        is_twiddle_row(as_ints(row@)),
    ensures
        final(top).len() == old(top).len(),
        final(tail).len() == old(tail).len(),
        as_ints(final(top)@ + final(tail)@) == merge_halves(
            as_ints(old(top)@),
            as_ints(old(tail)@),
            row[0] as int,
        ),
{
    let h = top.len();
    let ghost a = as_ints(top@);
    let ghost b = as_ints(tail@);
    let ghost w = row[0] as int;
    let ghost merged = merge_halves(a, b, w);
    let mut t: usize = 0;
    while t < h
        invariant
            t <= h,
            top.len() == h,
            tail.len() == h,
            row.len() == h,
            a.len() == h,
            b.len() == h,
            w == row[0],
            merged == merge_halves(a, b, w),
            is_twiddle_row(as_ints(row@)),
            all_reduced(a),
            all_reduced(b),
            forall|i: int| 0 <= i < t ==> top@[i] == #[trigger] merged[i],
            forall|i: int| h <= i < h + t ==> tail@[i - h] == #[trigger] merged[i],
            forall|i: int| t <= i < h ==> #[trigger] top@[i] == a[i],
            forall|i: int| t <= i < h ==> #[trigger] tail@[i] == b[i],
        decreases h - t,
    {
        assert(is_reduced(a[t as int]));
        assert(is_reduced(b[t as int]));
        let tw = if t == 0 {
            proof {
                lemma_pow0(w);
            }
            1
        } else {
            assert(as_ints(row@)[t - 1] == twiddle(w, t as nat));
            row[t - 1]
        };
        let (lo, hi) = butterfly(top[t], tail[t], tw);
        top[t] = lo;
        tail[t] = hi;
        t += 1;
    }
    assert(as_ints(top@ + tail@) =~= merged);
}

/// Runs the butterfly stages on a buffer that is already in bit-reversed
/// order, taking the twiddle factors of each stage from the table, from stage
/// `depth` on.
fn stages_by_table(buf: &mut [i64], table: &[Vec<i64>], depth: usize)
    requires
        is_power_of_two(old(buf).len() as nat),
        all_reduced(as_ints(old(buf)@)),
        stages_linked(table_view(table@), depth as nat, old(buf).len() as nat),
    ensures
        final(buf).len() == old(buf).len(),
        as_ints(final(buf)@) == merge_network(
            as_ints(old(buf)@),
            table_view(table@)[depth as int][0],
        ),
    decreases old(buf).len(),
{
    let n = buf.len();
    if n <= 1 {
        return ;
    }
    let h = n / 2;
    let ghost y = as_ints(buf@);
    let ghost t = table_view(table@);
    let ghost w = t[depth as int][0];
    let ghost w2 = (w * w) % modulus();
    assert(depth < table.len());
    let (top, tail) = buf.split_at_mut(h);
    assert(as_ints(top@) =~= y.subrange(0, h as int));
    assert(as_ints(tail@) =~= y.subrange(h as int, n as int));
    stages_by_table(top, table, depth + 1);
    stages_by_table(tail, table, depth + 1);
    assert(as_ints(top@) == merge_network(y.subrange(0, h as int), w2));
    assert(as_ints(tail@) == merge_network(y.subrange(h as int, n as int), w2));
    proof {
        lemma_merge_network_reduced(y.subrange(0, h as int), w2);
        lemma_merge_network_reduced(y.subrange(h as int, n as int), w2);
    }
    merge_by_row(top, tail, table[depth].as_slice());
}

/// Transforms `input` in place into its discrete Fourier transform with
/// respect to the root of unity on which `root_table` is built:
/// output `j` is the sum of `input[i] * w^(i * j)` over all `i`, reduced mod `P`.
///
/// The table has to be one for the length of `input`; a single entry is its
/// own transform, whatever the table.
pub fn forward_fft(input: &mut [i64], root_table: &[Vec<i64>])
    requires
        is_supported_length(old(input).len() as nat),
        all_reduced(as_ints(old(input)@)),
        old(input).len() == 1 || is_root_table(table_view(root_table@), old(input).len() as nat),
    ensures
        final(input).len() == old(input).len(),
        all_reduced(as_ints(final(input)@)),
        as_ints(final(input)@) == dft(as_ints(old(input)@), table_root(table_view(root_table@))),
        old(input).len() == 1 ==> final(input)@ == old(input)@,
{
    let n = input.len();
    let ghost x = as_ints(input@);
    let ghost w = table_root(table_view(root_table@));
    proof {
        lemma_network_is_dft(x, w);
        lemma_bit_reversed_reduced(x);
        lemma_merge_network_reduced(bit_reversed(x), w);
    }
    if n == 1 {
        assert(bit_reversed(x) =~= x);
        return ;
    }
    proof {
        lemma_table_stages_linked(table_view(root_table@), n as nat, 0);
        lemma2_to64();
    }
    bit_reverse_permute(input);
    stages_by_table(input, root_table, 0);
}

} // verus!
