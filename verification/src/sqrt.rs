//! Integer square root.

use vstd::prelude::*;

verus! {

/// `r` is the square root of `n`, rounded down.
pub open spec fn is_floor_sqrt(n: int, r: int) -> bool {
    0 <= r && r * r <= n && n < (r + 1) * (r + 1)
}

/// The square root of `n`, rounded down.
pub open spec fn floor_sqrt(n: int) -> int {
    choose|r: int| is_floor_sqrt(n, r)
}

/// Every natural number has a rounded-down square root.
pub proof fn lemma_floor_sqrt_exists(n: int) -> (r: int)
    requires
        0 <= n,
    ensures
        is_floor_sqrt(n, r),
    decreases n,
{
    if n == 0 {
        0
    } else {
        let prev = lemma_floor_sqrt_exists(n - 1);
        if (prev + 1) * (prev + 1) <= n {
            let next = prev + 1;
            assert(n < (next + 1) * (next + 1)) by (nonlinear_arith)
                requires
                    n - 1 < next * next,
                    0 < next,
            ;
            next
        } else {
            prev
        }
    }
}

/// No number has two rounded-down square roots.
pub proof fn lemma_floor_sqrt_unique(n: int, a: int, b: int)
    requires
        is_floor_sqrt(n, a),
        is_floor_sqrt(n, b),
    ensures
        a == b,
{
    if a < b {
        assert((a + 1) * (a + 1) <= b * b) by (nonlinear_arith)
            requires
                0 <= a,
                a + 1 <= b,
        ;
    } else if b < a {
        assert((b + 1) * (b + 1) <= a * a) by (nonlinear_arith)
            requires
                0 <= b,
                b + 1 <= a,
        ;
    }
}

/// `floor_sqrt(n)` is the one number whose square is at most `n` while the
/// square of its successor is above `n`.
pub proof fn lemma_floor_sqrt(n: int)
    requires
        0 <= n,
    ensures
        is_floor_sqrt(n, floor_sqrt(n)),
        forall|r: int| is_floor_sqrt(n, r) ==> r == floor_sqrt(n),
{
    let w = lemma_floor_sqrt_exists(n);
    assert(is_floor_sqrt(n, floor_sqrt(n)));
    assert forall|r: int| is_floor_sqrt(n, r) implies r == floor_sqrt(n) by {
        lemma_floor_sqrt_unique(n, r, floor_sqrt(n));
    }
}

/// The square root is at least either side of a right triangle's legs:
/// `floor_sqrt(a² + b²) >= |a|`.
pub proof fn lemma_floor_sqrt_of_squares(a: int, b: int)
    ensures
        floor_sqrt(a * a + b * b) >= a,
        floor_sqrt(a * a + b * b) >= -a,
        floor_sqrt(a * a + b * b) >= 0,
{
    let n = a * a + b * b;
    assert(0 <= a * a && 0 <= b * b) by (nonlinear_arith);
    lemma_floor_sqrt(n);
    let r = floor_sqrt(n);
    if r < a {
        assert((r + 1) * (r + 1) <= a * a) by (nonlinear_arith)
            requires
                0 <= r,
                r + 1 <= a,
        ;
    }
    if r < -a {
        assert((r + 1) * (r + 1) <= a * a) by (nonlinear_arith)
            requires
                0 <= r,
                r + 1 <= -a,
        ;
    }
}

/// Square root of `n`, rounded down.
pub fn isqrt(n: u128) -> (r: u64)
    ensures
        r == floor_sqrt(n as int),
{
    let top: u128 = 0x1_0000_0000_0000_0000;
    // An upper bound found by doubling keeps the search short for small `n`.
    let mut hi: u128 = 1;
    while hi < top && hi * hi <= n
        invariant
            1 <= hi <= top,
            top == 0x1_0000_0000_0000_0000,
            hi < top ==> hi * hi <= u128::MAX,
        decreases top - hi,
    {
        hi = if hi >= 0x8000_0000_0000_0000 {
            top
        } else {
            hi * 2
        };
        proof {
            if hi < top {
                assert(hi * hi <= u128::MAX) by (nonlinear_arith)
                    requires
                        0 <= hi <= 0xffff_ffff_ffff_ffff,
                ;
            }
        }
    }
    proof {
        if hi == top {
            assert(hi * hi > n) by (nonlinear_arith)
                requires
                    hi == 0x1_0000_0000_0000_0000,
                    n <= u128::MAX,
            ;
        }
    }
    let mut lo: u128 = 0;
    while hi - lo > 1
        invariant
            0 <= lo < hi <= 0x1_0000_0000_0000_0000,
            lo * lo <= n < hi * hi,
        decreases hi - lo,
    {
        let mid: u128 = lo + (hi - lo) / 2;
        assert(mid * mid <= u128::MAX) by (nonlinear_arith)
            requires
                0 <= mid <= 0xffff_ffff_ffff_ffff,
        ;
        if mid * mid <= n {
            lo = mid;
        } else {
            hi = mid;
        }
    }
    proof {
        assert(is_floor_sqrt(n as int, lo as int));
        lemma_floor_sqrt(n as int);
    }
    lo as u64
}

} // verus!
