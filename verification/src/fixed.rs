//! Unsigned fixed-point primitives: floor multiply-divide and integer
//! square root.  Every function states its result exactly over `int`
//! arithmetic; rounding is always toward zero.

use vstd::prelude::*;

verus! {

/// Floor of `a * b / d`, computed in 128-bit arithmetic.
pub fn mul_div(a: u128, b: u128, d: u128) -> (r: u128)
    requires
        d > 0,
        (a as int) * (b as int) <= u128::MAX,
    ensures
        r == (a as int) * (b as int) / (d as int),
{
    (a * b) / d
}

/// Floor of `a * b / d` when the product may exceed 128 bits, in spec
/// arithmetic: `None` exactly when the product overflows or `d` is zero.
pub open spec fn spec_checked_mul_div(a: int, b: int, d: int) -> Option<int> {
    if d <= 0 {
        None
    } else if b > 0 && a > (u128::MAX as int) / b {
        None
    } else {
        Some(a * b / d)
    }
}

/// Floor of `a * b / d` with a runtime overflow check.
pub fn checked_mul_div(a: u128, b: u128, d: u128) -> (r: Option<u128>)
    ensures
        match spec_checked_mul_div(a as int, b as int, d as int) {
            Some(v) => r == Some(v as u128) && 0 <= v <= u128::MAX,
            None => r is None,
        },
{
    if d == 0 {
        return None;
    }
    if b > 0 && a > u128::MAX / b {
        return None;
    }
    proof {
        if b > 0 {
            assert((a as int) * (b as int) <= u128::MAX) by (nonlinear_arith)
                requires
                    b > 0,
                    0 <= a,
                    a <= (u128::MAX as int) / (b as int),
            ;
        }
        assert((a as int) * (b as int) / (d as int) <= u128::MAX) by (nonlinear_arith)
            requires
                d > 0,
                0 <= (a as int) * (b as int) <= u128::MAX,
        ;
    }
    Some((a * b) / d)
}

/// Product saturating at the largest 128-bit value, in the checked form
/// the executable code uses.
pub open spec fn spec_sat_mul(a: int, b: int) -> int {
    if b > 0 && a > (u128::MAX as int) / b {
        u128::MAX as int
    } else {
        a * b
    }
}

/// Product with a runtime saturation check.
pub fn sat_mul(a: u128, b: u128) -> (r: u128)
    ensures
        r == spec_sat_mul(a as int, b as int),
{
    if b > 0 && a > u128::MAX / b {
        u128::MAX
    } else {
        proof {
            if b > 0 {
                assert((a as int) * (b as int) <= u128::MAX) by (nonlinear_arith)
                    requires
                        b > 0,
                        0 <= a,
                        a <= (u128::MAX as int) / (b as int),
                ;
            }
        }
        a * b
    }
}

/// Splitting a product-quotient: `a*li/d` computed without the full
/// product, through quotient and remainder of `a` by `d`.
pub proof fn lemma_mul_div_split(a: int, li: int, d: int)
    requires
        d > 0,
        a >= 0,
        li >= 0,
    ensures
        (a / d) * li + ((a % d) * li) / d == a * li / d,
{
    vstd::arithmetic::div_mod::lemma_fundamental_div_mod(a, d);
    let q = a / d;
    let r = a % d;
    assert(a * li == (q * li) * d + r * li) by (nonlinear_arith)
        requires
            a == d * q + r,
    ;
    vstd::arithmetic::div_mod::lemma_hoist_over_denominator(r * li, q * li, d as nat);
}

/// Floor of the square root in spec arithmetic: the unique `r` with
/// `r * r <= n < (r + 1) * (r + 1)`.
pub open spec fn spec_isqrt(n: int) -> int {
    choose|r: int| 0 <= r && #[trigger] (r * r) <= n < (r + 1) * (r + 1)
}

/// Two floor square roots of the same number coincide.
pub proof fn lemma_isqrt_unique(n: int, r1: int, r2: int)
    requires
        0 <= r1,
        r1 * r1 <= n < (r1 + 1) * (r1 + 1),
        0 <= r2,
        r2 * r2 <= n < (r2 + 1) * (r2 + 1),
    ensures
        r1 == r2,
{
    if r1 < r2 {
        assert((r1 + 1) * (r1 + 1) <= r2 * r2) by (nonlinear_arith)
            requires
                0 <= r1,
                r1 < r2,
        ;
    }
    if r2 < r1 {
        assert((r2 + 1) * (r2 + 1) <= r1 * r1) by (nonlinear_arith)
            requires
                0 <= r2,
                r2 < r1,
        ;
    }
}

/// Floor of the square root: the unique `r` with `r * r <= n < (r + 1) * (r + 1)`.
pub fn isqrt(n: u128) -> (r: u128)
    ensures
        r * r <= n,
        n < (r + 1) * (r + 1),
        r == spec_isqrt(n as int),
{
    if n == 0 {
        proof {
            assert(exists|r: int| 0 <= r && #[trigger] (r * r) <= (n as int) < (r + 1) * (r + 1))
                by {
                assert(0 <= 0int && 0int * 0int <= (n as int) < (0int + 1) * (0int + 1));
            }
            lemma_isqrt_unique(n as int, 0, spec_isqrt(n as int));
        }
        return 0;
    }
    // Bisect over [lo, hi) keeping lo * lo <= n < hi * hi.
    let mut lo: u128 = 0;
    let mut hi: u128 = 0x1_0000_0000_0000_0000u128;
    proof {
        assert(n < 0x1_0000_0000_0000_0000u128 * 0x1_0000_0000_0000_0000u128);
    }
    while hi - lo > 1
        invariant
            lo < hi,
            (lo as int) * (lo as int) <= n,
            n < (hi as int) * (hi as int),
            hi <= 0x1_0000_0000_0000_0000u128,
        decreases hi - lo,
    {
        let mid: u128 = lo + (hi - lo) / 2;
        proof {
            assert(mid < hi);
            assert((mid as int) * (mid as int) <= u128::MAX) by (nonlinear_arith)
                requires
                    mid < 0x1_0000_0000_0000_0000u128,
            ;
        }
        if mid * mid <= n {
            lo = mid;
        } else {
            hi = mid;
        }
    }
    proof {
        let w = lo as int;
        assert(exists|r: int| 0 <= r && #[trigger] (r * r) <= (n as int) < (r + 1) * (r + 1)) by {
            assert(0 <= w && w * w <= (n as int) < (w + 1) * (w + 1));
        }
        lemma_isqrt_unique(n as int, lo as int, spec_isqrt(n as int));
    }
    lo
}

} // verus!
