//! Subpixel fixed-point arithmetic.
//!
//! Coordinates are `i64` values counting 1/256ths of a pixel: [`FX_ONE`]
//! units make one pixel.  The helpers here give floor division, fractional
//! parts, rounding and an integer square root, each with an exact contract.

use vstd::prelude::*;
use vstd::arithmetic::div_mod::{
    lemma_fundamental_div_mod, lemma_fundamental_div_mod_converse_div, lemma_div_is_ordered,
    lemma_div_pos_is_pos,
};

verus! {

/// Number of fixed-point units in one pixel.
pub const FX_ONE: i64 = 256;

/// Floor division by a positive divisor: the Euclidean quotient, which in
/// Verus specifications is plain `/`.
pub fn div_floor(a: i64, b: i64) -> (q: i64)
    requires
        b > 0,
        i64::MIN < a,
    ensures
        q == a as int / b as int,
{
    let bu = b as u64;
    if a >= 0 {
        let m = a as u64;
        let q0 = m / bu;
        proof {
            lemma_div_pos_is_pos(m as int, bu as int);
            lemma_div_is_ordered(m as int, i64::MAX as int, bu as int);
            lemma_div_is_ordered((m as int) / (bu as int), m as int, 1);
            vstd::arithmetic::div_mod::lemma_div_nonincreasing(m as int, bu as int);
        }
        q0 as i64
    } else {
        let m = (-a) as u64;
        let q0 = (m + (bu - 1)) / bu;
        proof {
            let mi = m as int;
            let bi = b as int;
            let qi = (mi + bi - 1) / bi;
            lemma_fundamental_div_mod(mi + bi - 1, bi);
            let s = (mi + bi - 1) % bi;
            // a == b * (-qi) + (b - 1 - s), with the remainder in [0, b)
            assert(bi * (-qi) == -(bi * qi)) by (nonlinear_arith);
            assert(a as int == bi * (-qi) + (bi - 1 - s)) by {
                assert(mi + bi - 1 == bi * qi + s);
            }
            lemma_fundamental_div_mod_converse_div(a as int, bi, -qi, bi - 1 - s);
            // qi is at most m, so the negation fits in i64
            lemma_fundamental_div_mod_converse_div(mi * bi + bi - 1, bi, mi, bi - 1);
            assert(mi + bi - 1 <= mi * bi + bi - 1) by (nonlinear_arith)
                requires mi >= 0 && bi >= 1;
            lemma_div_is_ordered(mi + bi - 1, mi * bi + bi - 1, bi);
            lemma_div_pos_is_pos(mi + bi - 1, bi);
        }
        -(q0 as i64)
    }
}

/// The index of the pixel that a fixed-point coordinate falls in.
pub fn fx_floor(a: i64) -> (q: i64)
    requires
        i64::MIN < a,
    ensures
        q == a as int / 256,
{
    div_floor(a, FX_ONE)
}

/// The index of the first pixel at or after a fixed-point coordinate.
pub fn fx_ceil(a: i64) -> (q: i64)
    requires
        i64::MIN + 256 < a,
        a < i64::MAX - 256,
    ensures
        q == (a as int + 255) / 256,
{
    div_floor(a + 255, FX_ONE)
}

/// The index of the pixel whose left edge is nearest to a fixed-point
/// coordinate, halves rounding up.
pub fn fx_round(a: i64) -> (q: i64)
    requires
        i64::MIN + 256 < a,
        a < i64::MAX - 256,
    ensures
        q == (a as int + 128) / 256,
{
    div_floor(a + 128, FX_ONE)
}

/// The fractional part of a fixed-point coordinate, in units: the offset
/// into its pixel, from 0 to 255.
pub fn fx_fract(a: i64) -> (r: i64)
    requires
        i64::MIN < a,
    ensures
        r == a as int % 256,
        0 <= r < 256,
{
    let q = div_floor(a, FX_ONE);
    proof {
        lemma_fundamental_div_mod(a as int, 256);
    }
    a - q * 256
}

/// The absolute value.
pub fn abs_i64(a: i64) -> (r: i64)
    requires
        i64::MIN < a,
    ensures
        r == if a >= 0 { a as int } else { -(a as int) },
{
    if a >= 0 {
        a
    } else {
        -a
    }
}

/// Floor division of a wide intermediate value by a positive divisor.
pub fn div_floor_i128(a: i128, b: i128) -> (q: i128)
    requires
        b > 0,
        i128::MIN < a,
    ensures
        q == a as int / b as int,
{
    let bu = b as u128;
    if a >= 0 {
        let m = a as u128;
        let q0 = m / bu;
        proof {
            lemma_div_pos_is_pos(m as int, bu as int);
            vstd::arithmetic::div_mod::lemma_div_nonincreasing(m as int, bu as int);
        }
        q0 as i128
    } else {
        let m = (-a) as u128;
        let q0 = (m + (bu - 1)) / bu;
        proof {
            let mi = m as int;
            let bi = b as int;
            let qi = (mi + bi - 1) / bi;
            lemma_fundamental_div_mod(mi + bi - 1, bi);
            let s = (mi + bi - 1) % bi;
            assert(bi * (-qi) == -(bi * qi)) by (nonlinear_arith);
            assert(a as int == bi * (-qi) + (bi - 1 - s)) by {
                assert(mi + bi - 1 == bi * qi + s);
            }
            lemma_fundamental_div_mod_converse_div(a as int, bi, -qi, bi - 1 - s);
            lemma_fundamental_div_mod_converse_div(mi * bi + bi - 1, bi, mi, bi - 1);
            assert(mi + bi - 1 <= mi * bi + bi - 1) by (nonlinear_arith)
                requires mi >= 0 && bi >= 1;
            lemma_div_is_ordered(mi + bi - 1, mi * bi + bi - 1, bi);
            lemma_div_pos_is_pos(mi + bi - 1, bi);
        }
        -(q0 as i128)
    }
}

/// Whether `r` is the integer square root of `n`: the greatest integer
/// whose square does not exceed `n`.
pub open spec fn is_isqrt(n: int, r: int) -> bool {
    0 <= r && r * r <= n && n < (r + 1) * (r + 1)
}

/// The integer square root of a nonnegative value, as a specification.
pub open spec fn sqrt_floor(n: int) -> int {
    choose|r: int| is_isqrt(n, r)
}

/// At most one integer is the square root of a given value.
pub proof fn lemma_isqrt_unique(n: int, r1: int, r2: int)
    requires
        is_isqrt(n, r1),
        is_isqrt(n, r2),
    ensures
        r1 == r2,
{
    if r1 < r2 {
        assert((r1 + 1) * (r1 + 1) <= r2 * r2) by (nonlinear_arith)
            requires 0 <= r1 && 0 <= r2 && r1 + 1 <= r2;
    }
    if r2 < r1 {
        assert((r2 + 1) * (r2 + 1) <= r1 * r1) by (nonlinear_arith)
            requires 0 <= r1 && 0 <= r2 && r2 + 1 <= r1;
    }
}

/// A witness pins [`sqrt_floor`] down.
pub proof fn lemma_sqrt_floor_of(n: int, r: int)
    requires
        is_isqrt(n, r),
    ensures
        sqrt_floor(n) == r,
{
    let rc = choose|rr: int| is_isqrt(n, rr);
    assert(is_isqrt(n, rc));
    lemma_isqrt_unique(n, rc, r);
}

/// The integer square root: the greatest integer whose square does not
/// exceed the argument.
pub fn isqrt(n: u64) -> (r: u64)
    ensures
        r * r <= n,
        n < (r + 1) * (r + 1),
        r == sqrt_floor(n as int),
{
    let mut lo: u64 = 0;
    let mut hi: u64 = 0x1_0000_0000;
    proof {
        assert((0x1_0000_0000u64 as int) * (0x1_0000_0000u64 as int) > u64::MAX as int)
            by (nonlinear_arith);
    }
    while lo + 1 < hi
        invariant
            lo < hi,
            hi <= 0x1_0000_0000,
            lo * lo <= n,
            n < hi * hi,
        decreases hi - lo,
    {
        let mid = lo + (hi - lo) / 2;
        proof {
            assert((mid as int) * (mid as int) <= 0x1_0000_0000 * 0x1_0000_0000)
                by (nonlinear_arith)
                requires 0 <= mid as int <= 0x1_0000_0000;
        }
        let sq = (mid as u128) * (mid as u128);
        if sq <= n as u128 {
            lo = mid;
        } else {
            hi = mid;
        }
    }
    proof {
        lemma_sqrt_floor_of(n as int, lo as int);
    }
    lo
}

/// As [`isqrt`], for wide intermediate values.
pub fn isqrt_u128(n: u128) -> (r: u128)
    ensures
        r * r <= n,
        n < (r + 1) * (r + 1),
        r == sqrt_floor(n as int),
{
    let mut lo: u128 = 0;
    let mut hi: u128 = 0x1_0000_0000_0000_0000;
    proof {
        assert((0x1_0000_0000_0000_0000u128 as int) * (0x1_0000_0000_0000_0000u128 as int)
            > u128::MAX as int) by (nonlinear_arith);
    }
    while lo + 1 < hi
        invariant
            lo < hi,
            hi <= 0x1_0000_0000_0000_0000,
            lo * lo <= n,
            n < hi * hi,
        decreases hi - lo,
    {
        let mid = lo + (hi - lo) / 2;
        proof {
            assert((mid as int) * (mid as int) < 0x1_0000_0000_0000_0000
                * 0x1_0000_0000_0000_0000) by (nonlinear_arith)
                requires 0 <= mid as int && (mid as int) < 0x1_0000_0000_0000_0000;
            assert(0x1_0000_0000_0000_0000 * 0x1_0000_0000_0000_0000 == u128::MAX as int + 1)
                by (nonlinear_arith);
        }
        let sq = mid * mid;
        if sq <= n {
            lo = mid;
        } else {
            hi = mid;
        }
    }
    proof {
        lemma_sqrt_floor_of(n as int, lo as int);
    }
    lo
}

/// The product of two values is bounded by the product of their bounds.
pub(crate) proof fn lemma_mul_bound(a: int, b: int, ab: int, bb: int)
    requires
        -ab <= a <= ab,
        -bb <= b <= bb,
        0 <= ab,
        0 <= bb,
    ensures
        -(ab * bb) <= a * b <= ab * bb,
{
    assert(-(ab * bb) <= a * b <= ab * bb) by (nonlinear_arith)
        requires -ab <= a <= ab && -bb <= b <= bb && 0 <= ab && 0 <= bb;
}

} // verus!
