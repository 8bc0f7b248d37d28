//! Integer division with a chosen rounding, clamping and square roots.

use vstd::prelude::*;

verus! {

/// `a / b` rounded toward zero, for a positive divisor.
pub open spec fn quotient(a: int, b: int) -> int {
    if a >= 0 {
        a / b
    } else {
        -((-a) / b)
    }
}

/// `a / b` rounded away from zero, for a positive divisor.
pub open spec fn quotient_away(a: int, b: int) -> int {
    if a >= 0 {
        (a + b - 1) / b
    } else {
        -((-a + b - 1) / b)
    }
}

/// `x` moved into `[lo, hi]`: raised to `lo` where it is below, then lowered
/// to `hi` where it is above, so that `hi` wins where the two cross.
pub open spec fn clamp(x: int, lo: int, hi: int) -> int {
    let raised = if x < lo {
        lo
    } else {
        x
    };
    if raised > hi {
        hi
    } else {
        raised
    }
}

/// The absolute value of `x`.
pub open spec fn abs(x: int) -> int {
    if x >= 0 {
        x
    } else {
        -x
    }
}

/// Whether `r` is the largest number whose square does not exceed `n`.
pub open spec fn is_floor_sqrt(n: int, r: int) -> bool {
    0 <= r && r * r <= n && n < (r + 1) * (r + 1)
}

/// Whether `r` is the smallest number whose square reaches `n`.
pub open spec fn is_ceil_sqrt(n: int, r: int) -> bool {
    0 <= r && n <= r * r && (r == 0 || (r - 1) * (r - 1) < n)
}

/// The square root of `n`, rounded down.
pub open spec fn sqrt_floor(n: int) -> int
    decreases n,
{
    if n <= 0 {
        0
    } else {
        let below = sqrt_floor(n - 1);
        if (below + 1) * (below + 1) <= n {
            below + 1
        } else {
            below
        }
    }
}

/// The square root of `n`, rounded up.
pub open spec fn sqrt_ceil(n: int) -> int {
    let below = sqrt_floor(n);
    if below * below == n {
        below
    } else {
        below + 1
    }
}

/// `sqrt_floor` is the floor of the square root.
pub proof fn lemma_sqrt_floor(n: int)
    requires
        n >= 0,
    ensures
        is_floor_sqrt(n, sqrt_floor(n)),
    decreases n,
{
    if n > 0 {
        lemma_sqrt_floor(n - 1);
        let below = sqrt_floor(n - 1);
        assert((below + 2) * (below + 2) == (below + 1) * (below + 1) + 2 * below + 3)
            by (nonlinear_arith);
        assert((below + 1) * (below + 1) == below * below + 2 * below + 1) by (nonlinear_arith);
    }
}

/// The largest argument of the square roots: `2^124`.
pub const SQRT_LIMIT: u128 = 0x1000_0000_0000_0000_0000_0000_0000_0000;

/// A quotient rounded toward zero is no larger in magnitude than the exact
/// ratio, and within one of it.
pub proof fn lemma_quotient_bounds(a: int, b: int)
    requires
        b > 0,
    ensures
        a >= 0 ==> 0 <= quotient(a, b) * b <= a < quotient(a, b) * b + b,
        a <= 0 ==> 0 >= quotient(a, b) * b >= a > quotient(a, b) * b - b,
{
    if a >= 0 {
        assert(0 <= (a / b) * b <= a < (a / b) * b + b) by (nonlinear_arith)
            requires
                a >= 0,
                b > 0,
        ;
    } else {
        let m = -a;
        assert(0 <= (m / b) * b <= m < (m / b) * b + b) by (nonlinear_arith)
            requires
                m >= 0,
                b > 0,
        ;
        assert((-(m / b)) * b == -((m / b) * b)) by (nonlinear_arith);
    }
}

/// A quotient rounded away from zero is no smaller in magnitude than the
/// exact ratio, and within one of it.
pub proof fn lemma_quotient_away_bounds(a: int, b: int)
    requires
        b > 0,
    ensures
        a >= 0 ==> quotient_away(a, b) * b - b < a <= quotient_away(a, b) * b,
        a >= 0 ==> quotient_away(a, b) >= 0,
        a <= 0 ==> quotient_away(a, b) * b + b > a >= quotient_away(a, b) * b,
        a <= 0 ==> quotient_away(a, b) <= 0,
{
    if a >= 0 {
        let n = a + b - 1;
        assert(0 <= (n / b) * b <= n < (n / b) * b + b && n / b >= 0) by (nonlinear_arith)
            requires
                n >= 0,
                b > 0,
        ;
        if a == 0 {
            assert(n / b == 0) by (nonlinear_arith)
                requires
                    0 <= (n / b) * b <= n,
                    n < b,
                    n / b >= 0,
            ;
        }
    } else {
        let n = -a + b - 1;
        assert(0 <= (n / b) * b <= n < (n / b) * b + b && n / b >= 0) by (nonlinear_arith)
            requires
                n >= 0,
                b > 0,
        ;
        assert((-(n / b)) * b == -((n / b) * b)) by (nonlinear_arith);
    }
}

/// A ratio whose numerator is within `k` times the divisor is within `k`.
pub proof fn lemma_quotient_within(a: int, b: int, k: int)
    requires
        b > 0,
        k >= 0,
        -k * b <= a <= k * b,
    ensures
        -k <= quotient(a, b) <= k,
{
    lemma_quotient_bounds(a, b);
    let q = quotient(a, b);
    if a >= 0 {
        assert(q <= k) by (nonlinear_arith)
            requires
                q * b <= a,
                a <= k * b,
                b > 0,
        ;
    } else {
        assert(q >= -k) by (nonlinear_arith)
            requires
                q * b >= a,
                a >= -k * b,
                b > 0,
        ;
    }
}

/// Divides toward zero.
pub fn div_toward_zero(a: i128, b: i128) -> (q: i128)
    requires
        b > 0,
        a > i128::MIN,
    ensures
        q == quotient(a as int, b as int),
{
    if a >= 0 {
        a / b
    } else {
        let m: i128 = -a;
        let p: i128 = m / b;
        -p
    }
}

/// Divides away from zero.
pub fn div_away_from_zero(a: i128, b: i128) -> (q: i128)
    requires
        b > 0,
        -i128::MAX / 2 <= a <= i128::MAX / 2,
        b <= i128::MAX / 2,
    ensures
        q == quotient_away(a as int, b as int),
{
    if a >= 0 {
        (a + b - 1) / b
    } else {
        let m: i128 = -a + b - 1;
        let p: i128 = m / b;
        -p
    }
}

/// Moves `x` into `[lo, hi]`.
pub fn clamp_i128(x: i128, lo: i128, hi: i128) -> (r: i128)
    ensures
        r == clamp(x as int, lo as int, hi as int),
{
    let raised: i128 = if x < lo {
        lo
    } else {
        x
    };
    if raised > hi {
        hi
    } else {
        raised
    }
}

/// Squares grow with their base.
pub proof fn lemma_square_monotone(a: int, b: int)
    requires
        0 <= a <= b,
    ensures
        a * a <= b * b,
{
    assert(a * a <= b * b) by (nonlinear_arith)
        requires
            0 <= a <= b,
    ;
}

/// Only one number is the floor of a square root.
pub proof fn lemma_floor_sqrt_unique(n: int, r: int, s: int)
    requires
        is_floor_sqrt(n, r),
        is_floor_sqrt(n, s),
    ensures
        r == s,
{
    if r < s {
        lemma_square_monotone(r + 1, s);
    } else if s < r {
        lemma_square_monotone(s + 1, r);
    }
}

/// The square root of `n`, rounded down.
pub fn floor_sqrt(n: u128) -> (r: u64)
    requires
        n < SQRT_LIMIT,
    ensures
        is_floor_sqrt(n as int, r as int),
        r == sqrt_floor(n as int),
{
    proof {
        lemma_sqrt_floor(n as int);
    }
    let mut lo: u128 = 0;
    let mut hi: u128 = 0x4000_0000_0000_0000;
    assert(hi * hi == SQRT_LIMIT) by (nonlinear_arith)
        requires
            hi == 0x4000_0000_0000_0000u128,
    ;
    while hi - lo > 1
        invariant
            lo < hi <= 0x4000_0000_0000_0000,
            lo * lo <= n,
            n < hi * hi,
        decreases hi - lo,
    {
        let mid: u128 = lo + (hi - lo) / 2;
        assert(mid * mid < 0x1000_0000_0000_0000_0000_0000_0000_0000) by (nonlinear_arith)
            requires
                mid < 0x4000_0000_0000_0000u128,
        ;
        if mid * mid <= n {
            lo = mid;
        } else {
            hi = mid;
        }
    }
    proof {
        lemma_floor_sqrt_unique(n as int, lo as int, sqrt_floor(n as int));
    }
    lo as u64
}

/// The square root of `n`, rounded up.
pub fn ceil_sqrt(n: u128) -> (r: u64)
    requires
        n < SQRT_LIMIT,
    ensures
        is_ceil_sqrt(n as int, r as int),
        r == sqrt_ceil(n as int),
{
    let f: u64 = floor_sqrt(n);
    let wide: u128 = f as u128;
    assert(wide * wide <= n);
    assert(wide < 0x4000_0000_0000_0000) by (nonlinear_arith)
        requires
            wide * wide < 0x1000_0000_0000_0000_0000_0000_0000_0000u128,
    ;
    if wide * wide == n {
        assert(f > 0 ==> (f - 1) * (f - 1) < f * f) by (nonlinear_arith);
        f
    } else {
        assert((f + 1 - 1) * (f + 1 - 1) == f * f) by (nonlinear_arith);
        f + 1
    }
}

} // verus!
