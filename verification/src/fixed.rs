//! Fixed-point arithmetic on millionths.
//!
//! A real number `x` is represented by the integer `floor(x * SCALE)`.
//! Intermediate results are computed exactly in 128 bits and brought back to
//! 64 bits by [`saturate`].

use vstd::prelude::*;

verus! {

/// Number of representable steps per unit.
pub const SCALE: i64 = 1_000_000;

/// The value of `x` limited to the range of `i64`.
pub open spec fn clamp(x: int) -> i64 {
    if x < i64::MIN {
        i64::MIN
    } else if x > i64::MAX {
        i64::MAX
    } else {
        x as i64
    }
}

/// Brings a wide intermediate result back to 64 bits, stopping at the ends of
/// the range.
pub fn saturate(x: i128) -> (r: i64)
    ensures
        r == clamp(x as int),
{
    if x < i64::MIN as i128 {
        i64::MIN
    } else if x > i64::MAX as i128 {
        i64::MAX
    } else {
        x as i64
    }
}

/// Quotient rounded towards negative infinity.
pub fn div_floor(n: i128, d: i128) -> (q: i128)
    requires
        d > 0,
    ensures
        q == n as int / d as int,
{
    if n >= 0 {
        n / d
    } else {
        let m: i128 = -(n + 1);
        let k: i128 = m / d;
        proof {
            vstd::arithmetic::div_mod::lemma_fundamental_div_mod(m as int, d as int);
            vstd::arithmetic::div_mod::lemma_fundamental_div_mod(n as int, d as int);
            let q = n as int / d as int;
            let r = n as int % d as int;
            let kk = m as int / d as int;
            let rr = m as int % d as int;
            // n = d*q + r, -(n+1) = d*kk + rr, so d*(q + kk + 1) = d - 1 - r - rr
            assert(d * (q + kk + 1) == d - 1 - r - rr) by (nonlinear_arith)
                requires
                    n == d * q + r,
                    -(n + 1) == d * kk + rr,
            ;
            assert(q + kk + 1 == 0) by (nonlinear_arith)
                requires
                    d * (q + kk + 1) == d - 1 - r - rr,
                    0 <= r < d,
                    0 <= rr < d,
                    d > 0,
            ;
        }
        -k - 1
    }
}

} // verus!
