//! Finite sums of integer-valued functions over an initial segment of the
//! naturals, with the rearrangements the transform proofs rest on.

use vstd::arithmetic::div_mod::*;
use vstd::arithmetic::mul::*;
use vstd::prelude::*;

verus! {

/// `f(0) + f(1) + ... + f(n - 1)`.
pub open spec fn sum(f: spec_fn(nat) -> int, n: nat) -> int
    decreases n,
{
    if n == 0 {
        0
    } else {
        sum(f, (n - 1) as nat) + f((n - 1) as nat)
    }
}

/// Sums of functions that agree below `n` are equal.
pub proof fn lemma_sum_ext(f: spec_fn(nat) -> int, g: spec_fn(nat) -> int, n: nat)
    requires
        forall|i: nat| i < n ==> #[trigger] f(i) == g(i),
    ensures
        sum(f, n) == sum(g, n),
    decreases n,
{
    if n > 0 {
        lemma_sum_ext(f, g, (n - 1) as nat);
    }
}

/// Sums of functions that are congruent term by term are congruent.
pub proof fn lemma_sum_congruent(f: spec_fn(nat) -> int, g: spec_fn(nat) -> int, n: nat, m: int)
    requires
        m > 0,
        forall|i: nat| i < n ==> #[trigger] f(i) % m == g(i) % m,
    ensures
        sum(f, n) % m == sum(g, n) % m,
    decreases n,
{
    if n > 0 {
        let k = (n - 1) as nat;
        lemma_sum_congruent(f, g, k, m);
        lemma_add_mod_noop(sum(f, k), f(k), m);
        lemma_add_mod_noop(sum(g, k), g(k), m);
    }
}

/// A constant factor moves out of a sum.
pub proof fn lemma_sum_scale(f: spec_fn(nat) -> int, g: spec_fn(nat) -> int, c: int, n: nat)
    requires
        forall|i: nat| i < n ==> #[trigger] g(i) == c * f(i),
    ensures
        sum(g, n) == c * sum(f, n),
    decreases n,
{
    if n > 0 {
        let k = (n - 1) as nat;
        lemma_sum_scale(f, g, c, k);
        lemma_mul_is_distributive_add(c, sum(f, k), f(k));
    }
}

/// The sum of a termwise sum is the sum of the sums.
pub proof fn lemma_sum_add(
    f: spec_fn(nat) -> int,
    g: spec_fn(nat) -> int,
    s: spec_fn(nat) -> int,
    n: nat,
)
    requires
        forall|i: nat| i < n ==> #[trigger] s(i) == f(i) + g(i),
    ensures
        sum(s, n) == sum(f, n) + sum(g, n),
    decreases n,
{
    if n > 0 {
        lemma_sum_add(f, g, s, (n - 1) as nat);
    }
}

/// A sum over `2 * h` terms splits into its even-indexed and odd-indexed terms.
pub proof fn lemma_sum_even_odd(
    f: spec_fn(nat) -> int,
    e: spec_fn(nat) -> int,
    o: spec_fn(nat) -> int,
    h: nat,
)
    requires
        forall|i: nat| i < h ==> #[trigger] e(i) == f(2 * i),
        forall|i: nat| i < h ==> #[trigger] o(i) == f(2 * i + 1),
    ensures
        sum(f, 2 * h) == sum(e, h) + sum(o, h),
    decreases h,
{
    if h > 0 {
        let k = (h - 1) as nat;
        lemma_sum_even_odd(f, e, o, k);
        assert(sum(f, 2 * h) == sum(f, (2 * h - 1) as nat) + f((2 * h - 1) as nat));
        assert(sum(f, (2 * h - 1) as nat) == sum(f, 2 * k) + f(2 * k));
        assert(e(k) == f(2 * k));
        assert(o(k) == f(2 * k + 1));
    }
}

/// The sum of `n` equal terms.
pub proof fn lemma_sum_const(f: spec_fn(nat) -> int, c: int, n: nat)
    requires
        forall|i: nat| i < n ==> #[trigger] f(i) == c,
    ensures
        sum(f, n) == c * n,
    decreases n,
{
    if n > 0 {
        lemma_sum_const(f, c, (n - 1) as nat);
        assert(c * (n - 1) + c == c * n) by (nonlinear_arith);
    } else {
        assert(c * 0 == 0);
    }
}

/// A sum whose terms vanish except at one index equals the term there.
pub proof fn lemma_sum_single(f: spec_fn(nat) -> int, at: nat, n: nat)
    requires
        forall|i: nat| i < n && i != at ==> #[trigger] f(i) == 0,
    ensures
        sum(f, n) == if at < n { f(at) } else { 0 },
    decreases n,
{
    if n > 0 {
        lemma_sum_single(f, at, (n - 1) as nat);
    }
}

/// A sum splits at any point: the first `a` terms, then the rest shifted down.
pub proof fn lemma_sum_split(f: spec_fn(nat) -> int, g: spec_fn(nat) -> int, a: nat, n: nat)
    requires
        a <= n,
        forall|i: nat| i < n - a ==> #[trigger] g(i) == f(a + i),
    ensures
        sum(f, n) == sum(f, a) + sum(g, (n - a) as nat),
    decreases n,
{
    if n > a {
        let k = (n - 1) as nat;
        lemma_sum_split(f, g, a, k);
        assert(g((k - a) as nat) == f(a + (k - a) as nat));
    }
}

/// Rotating the index of a sum cyclically leaves it unchanged.
pub proof fn lemma_sum_rotate(f: spec_fn(nat) -> int, r: spec_fn(nat) -> int, a: nat, n: nat)
    requires
        a <= n,
        forall|i: nat|
            i < n ==> #[trigger] r(i) == f(
                if i < a {
                    (i + n - a) as nat
                } else {
                    (i - a) as nat
                },
            ),
    ensures
        sum(r, n) == sum(f, n),
{
    let b = (n - a) as nat;
    // r = [f(b), ..., f(n - 1), f(0), ..., f(b - 1)]
    let r_hi = |i: nat| r(a + i);
    let f_hi = |i: nat| f(b + i);
    lemma_sum_split(r, r_hi, a, n);
    lemma_sum_split(f, f_hi, b, n);
    assert forall|i: nat| i < a implies #[trigger] r(i) == f_hi(i) by {}
    lemma_sum_ext(r, f_hi, a);
    assert forall|i: nat| i < b implies #[trigger] r_hi(i) == f(i) by {
        assert(r(a + i) == f(((a + i) - a) as nat));
    }
    lemma_sum_ext(r_hi, f, b);
}

/// The order of summation in a double sum may be exchanged.
pub proof fn lemma_sum_exchange(
    f: spec_fn(nat, nat) -> int,
    rows: spec_fn(nat) -> int,
    cols: spec_fn(nat) -> int,
    n: nat,
    m: nat,
)
    requires
        forall|i: nat| i < n ==> #[trigger] rows(i) == sum(|j: nat| f(i, j), m),
        forall|j: nat| j < m ==> #[trigger] cols(j) == sum(|i: nat| f(i, j), n),
    ensures
        sum(rows, n) == sum(cols, m),
    decreases n,
{
    if n == 0 {
        assert forall|j: nat| j < m implies #[trigger] cols(j) == 0 by {}
        lemma_sum_single(cols, m, m);
    } else {
        let k = (n - 1) as nat;
        let cols_k = |j: nat| sum(|i: nat| f(i, j), k);
        lemma_sum_exchange(f, rows, cols_k, k, m);
        let last = |j: nat| f(k, j);
        assert forall|j: nat| j < m implies #[trigger] cols(j) == cols_k(j) + last(j) by {}
        lemma_sum_add(cols_k, last, cols, m);
        assert(rows(k) == sum(last, m));
    }
}

} // verus!
