//! A small library of finite summations over integer-valued functions,
//! used to state Walsh coefficients and matrix products.

use vstd::prelude::*;

verus! {

/// The sum `f(0) + f(1) + ... + f(n-1)`; zero when `n <= 0`.
pub open spec fn sum(n: int, f: spec_fn(int) -> int) -> int
    decreases n,
{
    if n <= 0 {
        0
    } else {
        sum(n - 1, f) + f(n - 1)
    }
}

/// Two functions that agree on `[0, n)` have the same sum.
pub proof fn lemma_sum_ext(n: int, f: spec_fn(int) -> int, g: spec_fn(int) -> int)
    requires
        forall|i: int| 0 <= i < n ==> #[trigger] f(i) == g(i),
    ensures
        sum(n, f) == sum(n, g),
    decreases n,
{
    if n > 0 {
        lemma_sum_ext(n - 1, f, g);
    }
}

/// A sum over `[0, n + m)` splits into the sum over `[0, n)` and the
/// shifted sum over `[0, m)`.
pub proof fn lemma_sum_split(n: int, m: int, f: spec_fn(int) -> int)
    requires
        n >= 0,
        m >= 0,
    ensures
        sum(n + m, f) == sum(n, f) + sum(m, |i: int| f(i + n)),
    decreases m,
{
    let g = |i: int| f(i + n);
    if m == 0 {
        assert(sum(0, g) == 0);
    } else {
        lemma_sum_split(n, m - 1, f);
        assert(sum(m, g) == sum(m - 1, g) + g(m - 1));
        assert(g(m - 1) == f(n + m - 1));
    }
}

/// Sums distribute over pointwise addition.
pub proof fn lemma_sum_add(n: int, f: spec_fn(int) -> int, g: spec_fn(int) -> int)
    ensures
        sum(n, |i: int| f(i) + g(i)) == sum(n, f) + sum(n, g),
    decreases n,
{
    if n > 0 {
        lemma_sum_add(n - 1, f, g);
    }
    assert(sum(n, |i: int| f(i) + g(i)) == if n <= 0 {
        0
    } else {
        sum(n - 1, |i: int| f(i) + g(i)) + (f(n - 1) + g(n - 1))
    });
}

/// A constant factor moves out of a sum.
pub proof fn lemma_sum_scale(n: int, c: int, f: spec_fn(int) -> int)
    ensures
        sum(n, |i: int| c * f(i)) == c * sum(n, f),
    decreases n,
{
    if n > 0 {
        lemma_sum_scale(n - 1, c, f);
        assert(c * (sum(n - 1, f) + f(n - 1)) == c * sum(n - 1, f) + c * f(n - 1))
            by (nonlinear_arith);
    }
    assert(sum(n, |i: int| c * f(i)) == if n <= 0 {
        0
    } else {
        sum(n - 1, |i: int| c * f(i)) + c * f(n - 1)
    });
}

/// The order of a double sum can be exchanged.
pub proof fn lemma_sum_swap(n: int, m: int, f: spec_fn(int, int) -> int)
    ensures
        sum(n, |i: int| sum(m, |j: int| f(i, j))) == sum(m, |j: int| sum(n, |i: int| f(i, j))),
    decreases n,
{
    let outer_n = |i: int| sum(m, |j: int| f(i, j));
    let outer_m = |j: int| sum(n, |i: int| f(i, j));
    if n <= 0 {
        assert(sum(n, outer_n) == 0);
        assert forall|j: int| 0 <= j < m implies #[trigger] outer_m(j) == 0 by {
            assert(sum(n, |i: int| f(i, j)) == 0);
        }
        lemma_sum_ext(m, outer_m, |j: int| 0);
        lemma_sum_zero(m);
    } else {
        lemma_sum_swap(n - 1, m, f);
        let prev_m = |j: int| sum(n - 1, |i: int| f(i, j));
        let last = |j: int| f(n - 1, j);
        assert(sum(n, outer_n) == sum(n - 1, outer_n) + sum(m, last));
        assert(sum(n - 1, outer_n) == sum(m, prev_m));
        lemma_sum_add(m, prev_m, last);
        assert forall|j: int| 0 <= j < m implies #[trigger] outer_m(j) == prev_m(j) + last(j) by {
            assert(sum(n, |i: int| f(i, j)) == sum(n - 1, |i: int| f(i, j)) + f(n - 1, j));
        }
        lemma_sum_ext(m, outer_m, |j: int| prev_m(j) + last(j));
    }
}

/// The sum of the all-zero function is zero.
pub proof fn lemma_sum_zero(n: int)
    ensures
        sum(n, |i: int| 0) == 0,
    decreases n,
{
    if n > 0 {
        lemma_sum_zero(n - 1);
    }
}

/// A sum whose only possibly nonzero term in `[0, n)` is at `k` equals
/// that term.
pub proof fn lemma_sum_delta(n: int, k: int, f: spec_fn(int) -> int)
    requires
        0 <= k < n,
        forall|i: int| 0 <= i < n && i != k ==> #[trigger] f(i) == 0,
    ensures
        sum(n, f) == f(k),
    decreases n,
{
    if k == n - 1 {
        lemma_sum_ext(n - 1, f, |i: int| 0);
        lemma_sum_zero(n - 1);
    } else {
        lemma_sum_delta(n - 1, k, f);
    }
}

/// In a sum of nonnegative terms, every term is at most the sum, and the
/// sum is nonnegative.
pub proof fn lemma_sum_nonneg_term(n: int, k: int, f: spec_fn(int) -> int)
    requires
        forall|i: int| 0 <= i < n ==> #[trigger] f(i) >= 0,
    ensures
        sum(n, f) >= 0,
        0 <= k < n ==> f(k) <= sum(n, f),
    decreases n,
{
    if n > 0 {
        lemma_sum_nonneg_term(n - 1, k, f);
    }
}

/// Extending the range of a sum of nonnegative terms cannot decrease it.
pub proof fn lemma_sum_prefix_le(n: int, m: int, f: spec_fn(int) -> int)
    requires
        0 <= n <= m,
        forall|i: int| 0 <= i < m ==> #[trigger] f(i) >= 0,
    ensures
        sum(n, f) <= sum(m, f),
    decreases m,
{
    if m > n {
        lemma_sum_prefix_le(n, m - 1, f);
    }
}

} // verus!
