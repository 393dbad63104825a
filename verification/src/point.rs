//! A 2D point (and vector) with subpixel fixed-point coordinates, and its
//! arithmetic: addition, subtraction, scaling, dot product, length,
//! normalization.

use vstd::prelude::*;
use crate::fixed::{abs_i64, div_floor, isqrt, sqrt_floor, FX_ONE};

verus! {

/// The largest coordinate magnitude the geometry works on, in fixed-point
/// units (65536 pixels).  Keeping coordinates within this bound lets every
/// product of two coordinates fit in 64 bits.
pub const COORD_LIMIT: i64 = 0x100_0000;

/// A point in 2D space.  Coordinates are fixed-point: [`FX_ONE`] units make
/// one pixel.
#[derive(Clone, Copy, PartialEq, Eq, Structural, Debug)]
pub struct Point {
    pub x: i64,
    pub y: i64,
}

/// The length of the vector (x, y), in fixed-point units: the integer
/// square root of the sum of the squared coordinates.
pub open spec fn length_fx(x: int, y: int) -> int {
    sqrt_floor(x * x + y * y)
}

impl Point {
    /// Both coordinates are within [`COORD_LIMIT`].
    pub open spec fn in_range(self) -> bool {
        -COORD_LIMIT <= self.x <= COORD_LIMIT && -COORD_LIMIT <= self.y <= COORD_LIMIT
    }

    /// Creates a new point with the given fixed-point coordinates.
    pub fn new(x: i64, y: i64) -> (p: Self)
        ensures
            p == (Point { x, y }),
    {
        Point { x, y }
    }

    /// The componentwise sum of this point and another.
    pub fn add(self, other: Point) -> (r: Point)
        requires
            self.in_range(),
            other.in_range(),
        ensures
            r == (Point { x: (self.x + other.x) as i64, y: (self.y + other.y) as i64 }),
    {
        Point { x: self.x + other.x, y: self.y + other.y }
    }

    /// The componentwise difference of this point and another.
    pub fn sub(self, other: Point) -> (r: Point)
        requires
            self.in_range(),
            other.in_range(),
        ensures
            r == (Point { x: (self.x - other.x) as i64, y: (self.y - other.y) as i64 }),
    {
        Point { x: self.x - other.x, y: self.y - other.y }
    }

    /// This point scaled by a fixed-point factor, each coordinate rounded
    /// down.
    pub fn mul(self, scalar: i64) -> (r: Point)
        requires
            self.in_range(),
            -COORD_LIMIT <= scalar <= COORD_LIMIT,
        ensures
            r == (Point {
                x: ((self.x * scalar) / 256) as i64,
                y: ((self.y * scalar) / 256) as i64,
            }),
    {
        proof {
            lemma_coord_product_bound(self.x as int, scalar as int);
            lemma_coord_product_bound(self.y as int, scalar as int);
            vstd::arithmetic::div_mod::lemma_div_is_ordered(
                -0x1_0000_0000_0000i64 as int,
                self.x as int * scalar as int,
                256,
            );
            vstd::arithmetic::div_mod::lemma_div_is_ordered(
                self.x as int * scalar as int,
                0x1_0000_0000_0000i64 as int,
                256,
            );
            vstd::arithmetic::div_mod::lemma_div_is_ordered(
                -0x1_0000_0000_0000i64 as int,
                self.y as int * scalar as int,
                256,
            );
            vstd::arithmetic::div_mod::lemma_div_is_ordered(
                self.y as int * scalar as int,
                0x1_0000_0000_0000i64 as int,
                256,
            );
        }
        Point { x: div_floor(self.x * scalar, FX_ONE), y: div_floor(self.y * scalar, FX_ONE) }
    }

    /// The length (magnitude) of the vector from the origin to this point,
    /// in fixed-point units.
    pub fn length(&self) -> (r: i64)
        requires
            self.in_range(),
        ensures
            r == length_fx(self.x as int, self.y as int),
            crate::fixed::is_isqrt(self.x * self.x + self.y * self.y, r as int),
            0 <= r <= 2 * COORD_LIMIT,
    {
        let n = sum_of_squares(self.x, self.y);
        let r = isqrt(n);
        proof {
            lemma_sqrt_bound(self.x as int, self.y as int, r as int);
        }
        r as i64
    }

    /// A vector with the same direction and length one pixel; the zero
    /// vector is returned unchanged.  Each coordinate is rounded down.
    pub fn normalize(&self) -> (r: Point)
        requires
            self.in_range(),
        ensures
            self.x == 0 && self.y == 0 ==> r == *self,
            !(self.x == 0 && self.y == 0) ==> r == (Point {
                x: ((self.x * 256) / length_fx(self.x as int, self.y as int)) as i64,
                y: ((self.y * 256) / length_fx(self.x as int, self.y as int)) as i64,
            }),
    {
        let len = self.length();
        if len == 0 {
            proof {
                lemma_zero_length(self.x as int, self.y as int);
            }
            *self
        } else {
            proof {
                let xs = self.x as int * 256;
                let ys = self.y as int * 256;
                assert(-0x1_0000_0000_0000 <= xs <= 0x1_0000_0000_0000);
                assert(-0x1_0000_0000_0000 <= ys <= 0x1_0000_0000_0000);
                vstd::arithmetic::div_mod::lemma_div_is_ordered(
                    -0x1_0000_0000_0000,
                    xs,
                    len as int,
                );
                vstd::arithmetic::div_mod::lemma_div_is_ordered(xs, 0x1_0000_0000_0000, len as int);
                vstd::arithmetic::div_mod::lemma_div_is_ordered(
                    -0x1_0000_0000_0000,
                    ys,
                    len as int,
                );
                vstd::arithmetic::div_mod::lemma_div_is_ordered(ys, 0x1_0000_0000_0000, len as int);
            }
            Point { x: div_floor(self.x * 256, len), y: div_floor(self.y * 256, len) }
        }
    }

    /// The componentwise absolute value.
    pub fn abs(&self) -> (r: Point)
        requires
            i64::MIN < self.x,
            i64::MIN < self.y,
        ensures
            r.x == if self.x >= 0 { self.x as int } else { -(self.x as int) },
            r.y == if self.y >= 0 { self.y as int } else { -(self.y as int) },
    {
        Point { x: abs_i64(self.x), y: abs_i64(self.y) }
    }

    /// This vector rotated a quarter turn counterclockwise: (x, y) becomes
    /// (-y, x).
    pub fn perpendicular(&self) -> (r: Point)
        requires
            i64::MIN < self.y,
        ensures
            r.x == -(self.y as int),
            r.y == self.x,
    {
        Point { x: -self.y, y: self.x }
    }

    /// The Euclidean distance between this point and another, in
    /// fixed-point units.
    pub fn distance(&self, other: &Point) -> (r: i64)
        requires
            self.in_range(),
            other.in_range(),
        ensures
            r == length_fx(self.x - other.x, self.y - other.y),
            crate::fixed::is_isqrt((self.x - other.x) * (self.x - other.x) + (self.y - other.y)
                * (self.y - other.y), r as int),
            0 <= r <= 4 * COORD_LIMIT,
    {
        let dx = self.x - other.x;
        let dy = self.y - other.y;
        let n = sum_of_squares2(dx, dy);
        let r = isqrt(n);
        proof {
            lemma_sqrt_bound2(dx as int, dy as int, r as int);
        }
        r as i64
    }

    /// The dot product of this vector and another, in squared fixed-point
    /// units (65536 units make one squared pixel).
    pub fn dot(&self, other: &Point) -> (r: i64)
        requires
            self.in_range(),
            other.in_range(),
        ensures
            r == self.x * other.x + self.y * other.y,
    {
        proof {
            lemma_coord_product_bound(self.x as int, other.x as int);
            lemma_coord_product_bound(self.y as int, other.y as int);
        }
        self.x * other.x + self.y * other.y
    }
}

/// The Euclidean distance between the points (x1, y1) and (x2, y2), all in
/// fixed-point units.
pub fn distance(x1: i64, y1: i64, x2: i64, y2: i64) -> (r: i64)
    requires
        -COORD_LIMIT <= x1 <= COORD_LIMIT,
        -COORD_LIMIT <= y1 <= COORD_LIMIT,
        -COORD_LIMIT <= x2 <= COORD_LIMIT,
        -COORD_LIMIT <= y2 <= COORD_LIMIT,
    ensures
        r == length_fx(x1 - x2, y1 - y2),
{
    Point::new(x1, y1).distance(&Point::new(x2, y2))
}

/// The product of two coordinates within [`COORD_LIMIT`] stays within
/// 2^48.
proof fn lemma_coord_product_bound(a: int, b: int)
    requires
        -0x100_0000 <= a <= 0x100_0000,
        -0x100_0000 <= b <= 0x100_0000,
    ensures
        -0x1_0000_0000_0000 <= a * b <= 0x1_0000_0000_0000,
{
    assert(-0x1_0000_0000_0000 <= a * b <= 0x1_0000_0000_0000) by (nonlinear_arith)
        requires -0x100_0000 <= a <= 0x100_0000 && -0x100_0000 <= b <= 0x100_0000;
}

/// The sum of the squares of two coordinates within [`COORD_LIMIT`], as an
/// unsigned 64-bit value.
fn sum_of_squares(x: i64, y: i64) -> (n: u64)
    requires
        -COORD_LIMIT <= x <= COORD_LIMIT,
        -COORD_LIMIT <= y <= COORD_LIMIT,
    ensures
        n == x * x + y * y,
        n <= 0x2_0000_0000_0000,
{
    proof {
        lemma_coord_product_bound(x as int, x as int);
        lemma_coord_product_bound(y as int, y as int);
        assert(x as int * x as int >= 0) by (nonlinear_arith);
        assert(y as int * y as int >= 0) by (nonlinear_arith);
    }
    (x * x + y * y) as u64
}

/// As [`sum_of_squares`], for differences of coordinates (twice the
/// range).
fn sum_of_squares2(x: i64, y: i64) -> (n: u64)
    requires
        -2 * COORD_LIMIT <= x <= 2 * COORD_LIMIT,
        -2 * COORD_LIMIT <= y <= 2 * COORD_LIMIT,
    ensures
        n == x * x + y * y,
        n <= 0x8_0000_0000_0000,
{
    proof {
        assert(-0x4_0000_0000_0000 <= x as int * x as int <= 0x4_0000_0000_0000
            && x as int * x as int >= 0) by (nonlinear_arith)
            requires -0x200_0000 <= x as int <= 0x200_0000;
        assert(-0x4_0000_0000_0000 <= y as int * y as int <= 0x4_0000_0000_0000
            && y as int * y as int >= 0) by (nonlinear_arith)
            requires -0x200_0000 <= y as int <= 0x200_0000;
    }
    (x * x + y * y) as u64
}

/// The square root of a sum of squares of coordinates within
/// [`COORD_LIMIT`] is at most twice the limit.
proof fn lemma_sqrt_bound(x: int, y: int, r: int)
    requires
        -0x100_0000 <= x <= 0x100_0000,
        -0x100_0000 <= y <= 0x100_0000,
        crate::fixed::is_isqrt(x * x + y * y, r),
    ensures
        0 <= r <= 2 * 0x100_0000,
{
    assert(x * x + y * y <= 0x2_0000_0000_0000) by (nonlinear_arith)
        requires -0x100_0000 <= x <= 0x100_0000 && -0x100_0000 <= y <= 0x100_0000;
    if r > 2 * 0x100_0000 {
        assert(r * r > 0x2_0000_0000_0000) by (nonlinear_arith)
            requires r > 2 * 0x100_0000;
    }
}

/// As [`lemma_sqrt_bound`], for differences of coordinates.
proof fn lemma_sqrt_bound2(x: int, y: int, r: int)
    requires
        -0x200_0000 <= x <= 0x200_0000,
        -0x200_0000 <= y <= 0x200_0000,
        crate::fixed::is_isqrt(x * x + y * y, r),
    ensures
        0 <= r <= 4 * 0x100_0000,
{
    assert(x * x + y * y <= 0x8_0000_0000_0000) by (nonlinear_arith)
        requires -0x200_0000 <= x <= 0x200_0000 && -0x200_0000 <= y <= 0x200_0000;
    if r > 4 * 0x100_0000 {
        assert(r * r > 0x8_0000_0000_0000) by (nonlinear_arith)
            requires r > 4 * 0x100_0000;
    }
}

/// Only the zero vector has length zero.
proof fn lemma_zero_length(x: int, y: int)
    requires
        crate::fixed::is_isqrt(x * x + y * y, 0),
    ensures
        x == 0 && y == 0,
{
    assert(x != 0 || y != 0 ==> x * x + y * y >= 1) by (nonlinear_arith);
}

} // verus!
