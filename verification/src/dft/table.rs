//! The table of twiddle factors that drives the forward transform, and its
//! generator.

use crate::backend::{
    backend_inverse, backend_two_adic_generator, lemma_two_adic_root_square, two_adic_root,
};
use crate::congruence::congruent;
use crate::dft::lengths::{is_supported_length, lemma_supported_log, log2, log2_of};
use crate::dft::roots::{
    group_generator, is_primitive_root, lemma_canonical_root_cofactor_power,
    lemma_inverse_root_primitive, lemma_two_adic_root_primitive,
};
use crate::field::{all_reduced, as_ints, is_reduced, modulus, mul_mod};
use vstd::arithmetic::div_mod::*;
use vstd::arithmetic::power::*;
use vstd::arithmetic::power2::*;
use vstd::prelude::*;

verus! {

/// Entry `j` of stage `k` of the table built on the root `w`: `w^(2^k * (j + 1))`.
pub open spec fn table_entry(w: int, k: nat, j: nat) -> int {
    pow(w, pow2(k) * (j + 1)) % modulus()
}

/// Stage `k` of the table for length `n` built on the root `w`: the first
/// `n / 2^(k + 1)` powers, from the first power on, of `w^(2^k)`.
pub open spec fn table_row(w: int, n: nat, k: nat) -> Seq<int> {
    Seq::new(n / pow2(k + 1), |j: int| table_entry(w, k, j as nat))
}

/// The table for length `n`: one stage for each halving of `n`, built on the
/// canonical `n`-th root of unity.
pub open spec fn root_table(n: nat) -> Seq<Seq<int>> {
    Seq::new(log2(n), |k: int| table_row(two_adic_root(log2(n)), n, k as nat))
}

/// A table as sequences of mathematical integers.
pub open spec fn table_view(t: Seq<Vec<i64>>) -> Seq<Seq<int>> {
    Seq::new(t.len(), |k: int| as_ints(t[k]@))
}

/// The root on which a table is built: its first cell.
pub open spec fn table_root(t: Seq<Seq<int>>) -> int {
    t[0][0]
}

/// `t` is a table for length `n`: it has the shape of one, its first cell is a
/// primitive `n`-th root of unity, and every cell is the power of that root
/// that its place calls for.
pub open spec fn is_root_table(t: Seq<Seq<int>>, n: nat) -> bool {
    &&& n >= 2
    &&& is_supported_length(n)
    &&& t.len() == log2(n)
    &&& forall|k: int| 0 <= k < t.len() ==> (#[trigger] t[k]).len() == n / pow2((k + 1) as nat)
    &&& is_primitive_root(table_root(t), n)
    &&& forall|k: int, j: int|
        0 <= k < t.len() && 0 <= j < t[k].len() ==> #[trigger] t[k][j] == table_entry(
            table_root(t),
            k as nat,
            j as nat,
        )
}

/// Every cell of `t` is a canonical representative.
pub open spec fn table_reduced(t: Seq<Seq<int>>) -> bool {
    forall|k: int| 0 <= k < t.len() ==> all_reduced(#[trigger] t[k])
}

/// The table that the generator builds is a table for its length, on the
/// canonical root of unity for that length, with every cell reduced.
pub proof fn lemma_root_table_valid(n: nat)
    requires
        n >= 2,
        is_supported_length(n),
    ensures
        is_root_table(root_table(n), n),
        table_reduced(root_table(n)),
        table_root(root_table(n)) == two_adic_root(log2(n)),
        table_root(root_table(n)) == pow(
            group_generator(),
            ((modulus() - 1) / (n as int)) as nat,
        ) % modulus(),
{
    lemma_canonical_root_cofactor_power(n);
    let t = root_table(n);
    let g = two_adic_root(log2(n));
    lemma_supported_log(n);
    lemma_two_adic_root_primitive(log2(n));
    lemma_two_adic_root_square(log2(n));
    lemma2_to64();
    assert(log2(n) >= 1);
    assert(t[0].len() == n / 2);
    assert(t[0][0] == g) by {
        assert(pow2(0) * (0 + 1) == 1);
        lemma_pow1(g);
        lemma_small_mod(g as nat, modulus() as nat);
    }
}

/// **Determinism.** The table is a function of the length alone: any two
/// tables that the generator returns for one length hold the same entries.
pub proof fn lemma_table_determined(a: Seq<Vec<i64>>, b: Seq<Vec<i64>>, n: nat)
    requires
        table_view(a) == root_table(n),
        table_view(b) == root_table(n),
    ensures
        a.len() == b.len(),
        forall|k: int| 0 <= k < a.len() ==> (#[trigger] a[k])@ == b[k]@,
{
    assert(table_view(a).len() == a.len());
    assert(table_view(b).len() == b.len());
    assert forall|k: int| 0 <= k < a.len() implies (#[trigger] a[k])@ == b[k]@ by {
        assert(table_view(a)[k] == as_ints(a[k]@));
        assert(table_view(b)[k] == as_ints(b[k]@));
        assert(as_ints(a[k]@).len() == a[k]@.len());
        assert(as_ints(b[k]@).len() == b[k]@.len());
        assert forall|j: int| 0 <= j < a[k]@.len() implies a[k]@[j] == b[k]@[j] by {
            assert(as_ints(a[k]@)[j] == a[k]@[j] as int);
            assert(as_ints(b[k]@)[j] == b[k]@[j] as int);
        }
        assert(a[k]@ =~= b[k]@);
    }
}

/// The first `count` powers of `base`, from the first power on.
pub fn powers_of(base: i64, count: usize) -> (row: Vec<i64>)
    requires
        is_reduced(base as int),
    ensures
        row.len() == count,
        forall|j: int|
            0 <= j < count ==> #[trigger] row[j] == pow(base as int, (j + 1) as nat) % modulus(),
{
    let mut row: Vec<i64> = Vec::with_capacity(count);
    let mut cur: i64 = base;
    let mut j: usize = 0;
    proof {
        lemma_pow1(base as int);
        lemma_small_mod(base as nat, modulus() as nat);
    }
    while j < count
        invariant
            j <= count,
            row.len() == j,
            is_reduced(base as int),
            cur == pow(base as int, (j + 1) as nat) % modulus(),
            forall|i: int|
                0 <= i < j ==> #[trigger] row[i] == pow(base as int, (i + 1) as nat) % modulus(),
        decreases count - j,
    {
        row.push(cur);
        proof {
            lemma_pow_adds(base as int, (j + 1) as nat, 1);
            lemma_pow1(base as int);
            lemma_mul_mod_noop_left(pow(base as int, (j + 1) as nat), base as int, modulus());
        }
        cur = mul_mod(cur, base);
        j += 1;
    }
    row
}

/// The inverse of the root on which the table for length `n` is built: the
/// scalar that drives the backward transform of that length.
pub fn inverse_root(n: usize) -> (root_inv: i64)
    requires
        is_supported_length(n as nat),
    ensures
        is_reduced(root_inv as int),
        congruent(two_adic_root(log2(n as nat)) * root_inv, 1),
        is_primitive_root(root_inv as int, n as nat),
{
    let bits = log2_of(n);
    proof {
        lemma_supported_log(n as nat);
        lemma2_to64();
        if bits >= 1 {
            lemma_two_adic_root_square(bits as nat);
            lemma_two_adic_root_primitive(bits as nat);
        }
    }
    let root = backend_two_adic_generator(bits);
    let root_inv = backend_inverse(root);
    proof {
        lemma_inverse_root_primitive(root as int, root_inv as int, n as nat);
    }
    root_inv
}

/// Builds the table of twiddle factors for buffers of length `n`, a function
/// of `n` alone.
///
/// The table is built on the canonical primitive `n`-th root of unity, which
/// is the generator of the multiplicative group raised to `(P - 1) / n`, and
/// which the first cell of the table holds. Stage `k`, for `k` from zero up to
/// `log2(n)`, holds the first `n / 2^(k + 1)` powers of that root raised to
/// `2^k`, the twiddle factors that merge two transformed halves of a buffer
/// of length `n / 2^k`.
pub fn roots_of_unity_table(n: usize) -> (table: Vec<Vec<i64>>)
    requires
        n >= 2,
        is_supported_length(n as nat),
    ensures
        table_view(table@) == root_table(n as nat),
        is_root_table(table_view(table@), n as nat),
        table_reduced(table_view(table@)),
        table_root(table_view(table@)) == two_adic_root(log2(n as nat)),
        table_root(table_view(table@)) == pow(
            group_generator(),
            ((modulus() - 1) / (n as int)) as nat,
        ) % modulus(),
        table.len() == log2(n as nat),
        table[0][0] == table_root(table_view(table@)),
{
    let bits = log2_of(n);
    proof {
        lemma_supported_log(n as nat);
        lemma_root_table_valid(n as nat);
        lemma_two_adic_root_square(bits as nat);
        lemma2_to64();
    }
    let ghost g = two_adic_root(bits as nat);
    let mut root = backend_two_adic_generator(bits);
    let mut table: Vec<Vec<i64>> = Vec::with_capacity(bits);
    let mut len: usize = n / 2;
    let mut k: usize = 0;
    proof {
        lemma_pow1(g);
        lemma_small_mod(g as nat, modulus() as nat);
    }
    while k < bits
        invariant
            k <= bits,
            bits == log2(n as nat),
            g == two_adic_root(bits as nat),
            table.len() == k,
            is_reduced(root as int),
            root == pow(g, pow2(k as nat)) % modulus(),
            len == (n as nat) / pow2((k + 1) as nat),
            forall|r: int| 0 <= r < k ==> as_ints(#[trigger] table[r]@) == root_table(n as nat)[r],
        decreases bits - k,
    {
        let row = powers_of(root, len);
        proof {
            let base = pow(g, pow2(k as nat));
            assert forall|j: int| 0 <= j < len implies #[trigger] as_ints(row@)[j] == table_entry(
                g,
                k as nat,
                j as nat,
            ) by {
                lemma_pow_mod_noop(base, (j + 1) as nat, modulus());
                lemma_pow_multiplies(g, pow2(k as nat), (j + 1) as nat);
            }
            assert(root_table(n as nat).len() == bits);
            assert(root_table(n as nat)[k as int].len() == len);
            assert(as_ints(row@) =~= root_table(n as nat)[k as int]);
            lemma_pow2_unfold((k + 1) as nat);
            lemma_pow2_unfold((k + 2) as nat);
            lemma_pow2_pos((k + 1) as nat);
            lemma_pow_adds(g, pow2(k as nat), pow2(k as nat));
            lemma_mul_mod_noop(base, base, modulus());
            lemma_div_denominator(n as int, pow2((k + 1) as nat) as int, 2);
        }
        table.push(row);
        root = mul_mod(root, root);
        len = len / 2;
        k += 1;
    }
    assert(table_view(table@) =~= root_table(n as nat));
    table
}

} // verus!
