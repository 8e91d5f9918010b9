//! Finite sums over a range of integers.

use vstd::prelude::*;

verus! {

/// `f(lo) + f(lo + 1) + ... + f(hi - 1)`; zero when the range is empty.
pub open spec fn sum_range(lo: int, hi: int, f: spec_fn(int) -> int) -> int
    decreases hi - lo,
{
    if hi <= lo {
        0
    } else {
        sum_range(lo, hi - 1, f) + f(hi - 1)
    }
}

/// A sum splits at any point of its range.
pub proof fn lemma_sum_range_split(lo: int, mid: int, hi: int, f: spec_fn(int) -> int)
    requires
        lo <= mid <= hi,
    ensures
        sum_range(lo, hi, f) == sum_range(lo, mid, f) + sum_range(mid, hi, f),
    decreases hi - mid,
{
    if mid < hi {
        lemma_sum_range_split(lo, mid, hi - 1, f);
    }
}

/// A sum of zeros is zero.
pub proof fn lemma_sum_range_zero(lo: int, hi: int, f: spec_fn(int) -> int)
    requires
        forall|i: int| lo <= i < hi ==> #[trigger] f(i) == 0,
    ensures
        sum_range(lo, hi, f) == 0,
    decreases hi - lo,
{
    if lo < hi {
        lemma_sum_range_zero(lo, hi - 1, f);
    }
}

/// Terms that are zero outside a window do not count: the sum over the
/// range is the sum over the window.
pub proof fn lemma_sum_range_window(lo: int, from: int, to: int, hi: int, f: spec_fn(int) -> int)
    requires
        lo <= from <= to <= hi,
        forall|i: int| lo <= i < from ==> #[trigger] f(i) == 0,
        forall|i: int| to <= i < hi ==> #[trigger] f(i) == 0,
    ensures
        sum_range(lo, hi, f) == sum_range(from, to, f),
{
    lemma_sum_range_split(lo, from, hi, f);
    lemma_sum_range_split(from, to, hi, f);
    lemma_sum_range_zero(lo, from, f);
    lemma_sum_range_zero(to, hi, f);
}

/// A sum of terms between zero and `bound` lies between zero and `bound`
/// times the number of terms.
pub proof fn lemma_sum_range_bounds(lo: int, hi: int, f: spec_fn(int) -> int, bound: int)
    requires
        lo <= hi,
        forall|i: int| lo <= i < hi ==> 0 <= #[trigger] f(i) <= bound,
    ensures
        0 <= sum_range(lo, hi, f) <= (hi - lo) * bound,
    decreases hi - lo,
{
    if lo < hi {
        lemma_sum_range_bounds(lo, hi - 1, f, bound);
        assert((hi - 1 - lo) * bound + bound == (hi - lo) * bound) by (nonlinear_arith);
    } else {
        assert((hi - lo) * bound == 0) by (nonlinear_arith)
            requires
                hi - lo == 0,
        ;
    }
}

/// A sum of terms that are each at most `k` times the term of another sum
/// is at most `k` times that sum.
pub proof fn lemma_sum_range_scaled(lo: int, hi: int, f: spec_fn(int) -> int, g: spec_fn(int) -> int, k: int)
    requires
        forall|i: int| lo <= i < hi ==> #[trigger] f(i) <= k * g(i),
    ensures
        sum_range(lo, hi, f) <= k * sum_range(lo, hi, g),
    decreases hi - lo,
{
    if lo < hi {
        lemma_sum_range_scaled(lo, hi - 1, f, g, k);
        assert(k * sum_range(lo, hi - 1, g) + k * g(hi - 1) == k * (sum_range(lo, hi - 1, g) + g(
            hi - 1,
        ))) by (nonlinear_arith);
    } else {
        assert(k * 0 == 0) by (nonlinear_arith);
    }
}

} // verus!
