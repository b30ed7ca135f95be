//! Integer square roots and rounded quotients.

use vstd::prelude::*;

verus! {

/// The quotient `n / total` rounded to the nearest integer, halves away from
/// zero.
pub open spec fn round_div(n: int, total: int) -> int
    recommends
        total > 0,
{
    if n >= 0 {
        (2 * n + total) / (2 * total)
    } else {
        -((2 * (-n) + total) / (2 * total))
    }
}

/// A rounded quotient of a non-negative number is bounded as the number is.
pub proof fn lemma_share_bounds(n: int, total: int, bound: int)
    by (nonlinear_arith)
    requires
        total > 0,
        0 <= n <= bound * total,
    ensures
        0 <= (2 * n + total) / (2 * total) <= bound,
{
    assert(2 * n + total < 2 * total * (bound + 1));
}

/// A rounded quotient has the sign of the number and is bounded as it is.
pub proof fn lemma_round_div_bounds(n: int, total: int, bound: int)
    requires
        total > 0,
        -(bound * total) <= n <= bound * total,
    ensures
        n >= 0 ==> 0 <= round_div(n, total) <= bound,
        n <= 0 ==> -bound <= round_div(n, total) <= 0,
{
    assert(bound >= 0) by (nonlinear_arith)
        requires
            total > 0,
            -(bound * total) <= bound * total,
    ;
    if n >= 0 {
        lemma_share_bounds(n, total, bound);
        if n == 0 {
            assert(total / (2 * total) == 0) by (nonlinear_arith)
                requires
                    total > 0,
            ;
        }
    } else {
        lemma_share_bounds(-n, total, bound);
    }
}

/// Rounding moves a quotient by at most a half:
/// `|2 * total * round_div(n, total) - 2 * n| <= total`.
pub proof fn lemma_round_div_error(n: int, total: int)
    requires
        total > 0,
    ensures
        -total <= 2 * total * round_div(n, total) - 2 * n <= total,
{
    let m: int = if n >= 0 { n } else { -n };
    let top: int = 2 * m + total;
    let q: int = top / (2 * total);
    assert(top == (2 * total) * q + top % (2 * total) && 0 <= top % (2 * total) < 2 * total)
        by (nonlinear_arith)
        requires
            q == top / (2 * total),
            total > 0,
    ;
    assert(2 * total * q == (2 * total) * q) by (nonlinear_arith);
    if n >= 0 {
        assert(round_div(n, total) == q);
    } else {
        assert(round_div(n, total) == -q);
        assert(2 * total * (-q) == -(2 * total * q)) by (nonlinear_arith);
    }
}

/// `r` is the integer square root of `n`: the largest integer whose square
/// does not exceed `n`.
pub open spec fn is_sqrt(n: int, r: int) -> bool {
    r >= 0 && r * r <= n < (r + 1) * (r + 1)
}

/// The integer square root of `n`.
pub open spec fn sqrt_floor(n: int) -> int
    recommends
        n >= 0,
{
    choose|r: int| is_sqrt(n, r)
}

/// Squaring is strictly monotone on the non-negative integers.
pub proof fn lemma_square_monotone(a: int, b: int)
    by (nonlinear_arith)
    requires
        0 <= a < b,
    ensures
        a * a < b * b,
        (a + 1) * (a + 1) <= b * b,
{
}

/// A number has at most one integer square root.
pub proof fn lemma_sqrt_unique(n: int, r: int, s: int)
    requires
        is_sqrt(n, r),
        is_sqrt(n, s),
    ensures
        r == s,
{
    if r < s {
        lemma_square_monotone(r, s);
    } else if s < r {
        lemma_square_monotone(s, r);
    }
}

/// Whatever satisfies `is_sqrt` is the integer square root.
pub proof fn lemma_sqrt_floor_is(n: int, r: int)
    requires
        is_sqrt(n, r),
    ensures
        sqrt_floor(n) == r,
{
    lemma_sqrt_unique(n, r, sqrt_floor(n));
}

/// Every non-negative number has an integer square root.
pub proof fn lemma_sqrt_exists(n: int)
    requires
        n >= 0,
    ensures
        is_sqrt(n, sqrt_floor(n)),
    decreases n,
{
    if n == 0 {
        assert(is_sqrt(0, 0));
    } else {
        lemma_sqrt_exists(n - 1);
        let r = sqrt_floor(n - 1);
        if (r + 1) * (r + 1) <= n {
            assert((r + 2) * (r + 2) > (r + 1) * (r + 1)) by (nonlinear_arith)
                requires
                    r >= 0,
            ;
            assert(is_sqrt(n, r + 1));
        } else {
            assert(is_sqrt(n, r));
        }
    }
}

/// The integer square root of a number that is at most a square is at most
/// the root of the square.
pub proof fn lemma_sqrt_at_most(n: int, bound: int)
    requires
        0 <= n <= bound * bound,
        bound >= 0,
    ensures
        0 <= sqrt_floor(n) <= bound,
{
    lemma_sqrt_exists(n);
    if sqrt_floor(n) > bound {
        lemma_square_monotone(bound, sqrt_floor(n));
    }
}

/// The integer square root, by bisection.
pub fn isqrt(n: u128) -> (r: u64)
    ensures
        is_sqrt(n as int, r as int),
        r == sqrt_floor(n as int),
{
    let mut lo: u128 = 0;
    let mut hi: u128 = 0x1_0000_0000_0000_0000;
    proof {
        assert(0x1_0000_0000_0000_0000int * 0x1_0000_0000_0000_0000int > n) by (nonlinear_arith)
            requires
                n <= u128::MAX,
        ;
    }
    while hi - lo > 1
        invariant
            0 <= lo < hi <= 0x1_0000_0000_0000_0000,
            lo * lo <= n,
            hi * hi > n,
        decreases hi - lo,
    {
        let mid: u128 = lo + (hi - lo) / 2;
        proof {
            lemma_square_monotone(mid as int, 0x1_0000_0000_0000_0000int);
            assert(0x1_0000_0000_0000_0000int * 0x1_0000_0000_0000_0000int
                == 0x1_0000_0000_0000_0000_0000_0000_0000_0000int) by (nonlinear_arith);
        }
        if mid * mid <= n {
            lo = mid;
        } else {
            hi = mid;
        }
    }
    proof {
        assert(hi == lo + 1);
        lemma_sqrt_floor_is(n as int, lo as int);
    }
    lo as u64
}

/// `d * weight / total` rounded to the nearest integer, halves away from
/// zero. The quotient must not exceed 2^32 in magnitude.
pub fn lerp(d: i64, weight: i128, total: u128) -> (r: i64)
    requires
        total > 0,
        total <= 0x4_0000_0000_0000_0000,
        -0x2_0000_0000_0000_0000 <= weight <= 0x2_0000_0000_0000_0000,
        -0x2_0000_0000 <= d <= 0x2_0000_0000,
        -(0x1_0000_0000 * total) <= d * weight <= 0x1_0000_0000 * total,
    ensures
        r == round_div(d * weight, total as int),
        -0x1_0000_0000 <= r <= 0x1_0000_0000,
{
    proof {
        assert(-(0x2_0000_0000 * 0x2_0000_0000_0000_0000) <= d * weight <= 0x2_0000_0000
            * 0x2_0000_0000_0000_0000) by (nonlinear_arith)
            requires
                -0x2_0000_0000 <= d <= 0x2_0000_0000,
                -0x2_0000_0000_0000_0000 <= weight <= 0x2_0000_0000_0000_0000,
        ;
        lemma_round_div_bounds(d * weight, total as int, 0x1_0000_0000);
    }
    let n: i128 = (d as i128) * weight;
    let m: u128 = if n >= 0 { n as u128 } else { (-n) as u128 };
    let q: u128 = (2 * m + total) / (2 * total);
    if n >= 0 {
        q as i64
    } else {
        -(q as i64)
    }
}

} // verus!
