//! Finite sums of integer functions, and the rearrangements that the ring
//! laws rest on.

use vstd::arithmetic::div_mod::*;
use vstd::prelude::*;

verus! {

/// The sum of `f(i)` for `i` from `lo` up to, not including, `hi`.
pub open spec fn sum(f: spec_fn(int) -> int, lo: int, hi: int) -> int
    decreases hi - lo,
{
    if hi <= lo {
        0
    } else {
        sum(f, lo, hi - 1) + f(hi - 1)
    }
}

/// Functions that agree on the range have the same sum.
pub proof fn lemma_sum_ext(f: spec_fn(int) -> int, g: spec_fn(int) -> int, lo: int, hi: int)
    requires
        forall|i: int| lo <= i < hi ==> #[trigger] f(i) == g(i),
    ensures
        sum(f, lo, hi) == sum(g, lo, hi),
    decreases hi - lo,
{
    if hi > lo {
        lemma_sum_ext(f, g, lo, hi - 1);
    }
}

/// A sum splits at any point of its range.
pub proof fn lemma_sum_split(f: spec_fn(int) -> int, lo: int, mid: int, hi: int)
    requires
        lo <= mid <= hi,
    ensures
        sum(f, lo, hi) == sum(f, lo, mid) + sum(f, mid, hi),
    decreases hi - mid,
{
    if hi > mid {
        lemma_sum_split(f, lo, mid, hi - 1);
    }
}

/// The first term can be taken off a sum.
pub proof fn lemma_sum_first(f: spec_fn(int) -> int, lo: int, hi: int)
    requires
        lo < hi,
    ensures
        sum(f, lo, hi) == f(lo) + sum(f, lo + 1, hi),
{
    lemma_sum_split(f, lo, lo + 1, hi);
    assert(sum(f, lo, lo + 1) == sum(f, lo, lo) + f(lo));
}

/// Moving the range by `c` and the argument back leaves the sum unchanged.
pub proof fn lemma_sum_shift(f: spec_fn(int) -> int, lo: int, hi: int, c: int)
    ensures
        sum(|i: int| f(i + c), lo, hi) == sum(f, lo + c, hi + c),
    decreases hi - lo,
{
    if hi > lo {
        lemma_sum_shift(f, lo, hi - 1, c);
    }
}

/// Summing `f(k - j)` over the mirrored range gives the sum of `f`.
pub proof fn lemma_sum_reflect(f: spec_fn(int) -> int, lo: int, hi: int, k: int)
    ensures
        sum(|j: int| f(k - j), k - hi + 1, k - lo + 1) == sum(f, lo, hi),
    decreases hi - lo,
{
    if hi > lo {
        let g = |j: int| f(k - j);
        lemma_sum_reflect(f, lo, hi - 1, k);
        lemma_sum_first(g, k - hi + 1, k - lo + 1);
    }
}

/// The sum of a pointwise sum is the sum of the sums.
pub proof fn lemma_sum_add(f: spec_fn(int) -> int, g: spec_fn(int) -> int, lo: int, hi: int)
    ensures
        sum(|i: int| f(i) + g(i), lo, hi) == sum(f, lo, hi) + sum(g, lo, hi),
    decreases hi - lo,
{
    if hi > lo {
        lemma_sum_add(f, g, lo, hi - 1);
    }
}

/// A constant factor can be taken out of a sum.
pub proof fn lemma_sum_scale(f: spec_fn(int) -> int, c: int, lo: int, hi: int)
    ensures
        sum(|i: int| c * f(i), lo, hi) == c * sum(f, lo, hi),
    decreases hi - lo,
{
    if hi > lo {
        lemma_sum_scale(f, c, lo, hi - 1);
        assert(c * (sum(f, lo, hi - 1) + f(hi - 1)) == c * sum(f, lo, hi - 1) + c * f(hi - 1))
            by (nonlinear_arith);
    } else {
        assert(c * 0 == 0);
    }
}

/// The two orders of a double sum agree.
pub proof fn lemma_sum_swap(f: spec_fn(int, int) -> int, n: int, m: int)
    ensures
        sum(|i: int| sum(|j: int| f(i, j), 0, m), 0, n) == sum(
            |j: int| sum(|i: int| f(i, j), 0, n),
            0,
            m,
        ),
    decreases n,
{
    let rows = |i: int| sum(|j: int| f(i, j), 0, m);
    let columns = |j: int| sum(|i: int| f(i, j), 0, n);
    if n > 0 {
        let fewer = |j: int| sum(|i: int| f(i, j), 0, n - 1);
        let last = |j: int| f(n - 1, j);
        lemma_sum_swap(f, n - 1, m);
        lemma_sum_add(fewer, last, 0, m);
        assert forall|j: int| 0 <= j < m implies #[trigger] columns(j) == fewer(j) + last(j) by {}
        lemma_sum_ext(columns, |j: int| fewer(j) + last(j), 0, m);
        assert(rows(n - 1) == sum(last, 0, m));
    } else {
        lemma_sum_zero(columns, 0, m);
    }
}

/// A sum of zeros is zero.
pub proof fn lemma_sum_zero(f: spec_fn(int) -> int, lo: int, hi: int)
    requires
        forall|i: int| lo <= i < hi ==> #[trigger] f(i) == 0,
    ensures
        sum(f, lo, hi) == 0,
    decreases hi - lo,
{
    if hi > lo {
        lemma_sum_zero(f, lo, hi - 1);
    }
}

/// Every window of one period of a periodic function has the same sum.
pub proof fn lemma_sum_window(f: spec_fn(int) -> int, n: int, j: int)
    requires
        n >= 0,
        forall|i: int| #[trigger] f(i + n) == f(i),
    ensures
        sum(f, j, j + n) == sum(f, 0, n),
    decreases
            if j >= 0 {
                j
            } else {
                -j
            },
{
    if j > 0 {
        lemma_sum_window(f, n, j - 1);
        assert(f((j - 1) + n) == f(j - 1));
        if n > 0 {
            lemma_sum_first(f, j - 1, j - 1 + n);
        }
    } else if j < 0 {
        lemma_sum_window(f, n, j + 1);
        assert(f(j + n) == f(j));
        if n > 0 {
            lemma_sum_first(f, j, j + n);
        }
    }
}

/// A sum of terms within `b` of zero lies within the number of terms times
/// `b`.
pub proof fn lemma_sum_bound(f: spec_fn(int) -> int, lo: int, hi: int, b: int)
    requires
        lo <= hi,
        forall|i: int| lo <= i < hi ==> -b <= #[trigger] f(i) <= b,
    ensures
        -((hi - lo) * b) <= sum(f, lo, hi) <= (hi - lo) * b,
    decreases hi - lo,
{
    if hi > lo {
        lemma_sum_bound(f, lo, hi - 1, b);
        assert((hi - lo) * b == (hi - 1 - lo) * b + b) by (nonlinear_arith);
    } else {
        assert(0 * b == 0);
    }
}

/// Sums of termwise congruent functions are congruent.
pub proof fn lemma_sum_congruent(
    f: spec_fn(int) -> int,
    g: spec_fn(int) -> int,
    lo: int,
    hi: int,
    q: int,
)
    requires
        q > 0,
        forall|i: int| lo <= i < hi ==> #[trigger] f(i) % q == g(i) % q,
    ensures
        sum(f, lo, hi) % q == sum(g, lo, hi) % q,
    decreases hi - lo,
{
    if hi > lo {
        lemma_sum_congruent(f, g, lo, hi - 1, q);
        assert(f(hi - 1) % q == g(hi - 1) % q);
        lemma_add_mod_noop(sum(f, lo, hi - 1), f(hi - 1), q);
        lemma_add_mod_noop(sum(g, lo, hi - 1), g(hi - 1), q);
    }
}

} // verus!
