//! The closed set of drawable shapes — ellipse, rectangle, polygon — and
//! their shared capabilities: point containment, bounding box and signed
//! distance to the boundary.

use vstd::prelude::*;
use vstd::arithmetic::div_mod::{lemma_div_is_ordered, lemma_div_multiples_vanish};
use vstd::string::StringExecFns;
use crate::color::{digit_char, digit_str};
use crate::fixed::{
    div_floor, div_floor_i128, is_isqrt, isqrt, isqrt_u128, lemma_mul_bound, sqrt_floor,
};
use crate::line::{closest_point_spec, Line};
use crate::point::{length_fx, Point, COORD_LIMIT};

verus! {

/// The distance reported for degenerate queries (an ellipse with no
/// extent, a polygon with fewer than two vertices), standing in for an
/// infinite distance.
pub const DIST_INFINITE: i64 = i64::MAX;

/// A geometric shape in 2D space, with fixed-point coordinates throughout.
pub trait Shape {
    /// The shape's parameters are within the bounds the exact arithmetic
    /// needs.
    spec fn wf(&self) -> bool;

    /// Whether a point is inside the shape or on its boundary.
    spec fn spec_contains(&self, point: Point) -> bool;

    /// The corners of the shape's axis-aligned bounding box.
    spec fn spec_bounding_box(&self) -> (Point, Point);

    /// The distance from a point to the shape's boundary, in fixed-point
    /// units; negative inside, for the shapes whose convention says so.
    spec fn spec_distance(&self, point: Point) -> int;

    /// Whether `point` is inside or on the boundary of the shape.
    fn contains(&self, point: Point) -> (r: bool)
        requires
            self.wf(),
            point.in_range(),
        ensures
            r == self.spec_contains(point),
    ;

    /// The top-left and bottom-right corners of the bounding box that
    /// fully encloses the shape.
    fn bounding_box(&self) -> (r: (Point, Point))
        requires
            self.wf(),
        ensures
            r == self.spec_bounding_box(),
            -2 * COORD_LIMIT <= r.0.x <= 2 * COORD_LIMIT,
            -2 * COORD_LIMIT <= r.0.y <= 2 * COORD_LIMIT,
            -2 * COORD_LIMIT <= r.1.x <= 2 * COORD_LIMIT,
            -2 * COORD_LIMIT <= r.1.y <= 2 * COORD_LIMIT,
    ;

    /// The shortest distance from `point` to the shape's boundary, in
    /// fixed-point units.  May be negative when the point is inside the
    /// shape, depending on the shape.
    fn distance(&self, point: Point) -> (r: i64)
        requires
            self.wf(),
            point.in_range(),
        ensures
            r == self.spec_distance(point),
            -4 * COORD_LIMIT <= r,
    ;
}

/// An ellipse given by its center and its full extents (diameters) along
/// the two axes, in fixed-point units.  The extents are expected
/// nonnegative; an ellipse without positive extent contains nothing and is
/// infinitely far away.
pub struct Ellipse {
    /// The center point of the ellipse.
    pub center: Point,
    /// The width of the ellipse (extent along the x-axis).
    pub width: i64,
    /// The height of the ellipse (extent along the y-axis).
    pub height: i64,
}

/// Whether a point satisfies the ellipse equation, cleared of divisions:
/// (2 dx)^2 h^2 + (2 dy)^2 w^2 <= w^2 h^2, boundary included.
pub open spec fn ellipse_contains(center: Point, width: i64, height: i64, p: Point) -> bool {
    if width <= 0 || height <= 0 {
        false
    } else {
        let dx2 = 2 * (p.x - center.x);
        let dy2 = 2 * (p.y - center.y);
        dx2 * dx2 * (height * height) + dy2 * dy2 * (width * width) <= (width * width) * (height
            * height)
    }
}

/// The approximate signed distance from a point to the ellipse boundary:
/// the square root of the same division-cleared quadratic form the
/// containment test uses, less the boundary radius, scaled by the smaller
/// half-extent; exact only near the boundary.  Inside and on the boundary
/// the value is rounded down; outside it is rounded up, away from zero, so
/// that its sign agrees with containment: nonpositive exactly on the
/// points the ellipse contains (see [`lemma_ellipse_distance_sign`]).
pub open spec fn ellipse_distance(center: Point, width: i64, height: i64, p: Point) -> int {
    let hw = (width as int) / 2;
    let hh = (height as int) / 2;
    if hw <= 0 || hh <= 0 {
        DIST_INFINITE as int
    } else {
        let dx2 = 2 * (p.x - center.x);
        let dy2 = 2 * (p.y - center.y);
        let q = dx2 * dx2 * (height * height) + dy2 * dy2 * (width * width);
        let rr = width * height;
        let m = if hw <= hh {
            hw
        } else {
            hh
        };
        let s = sqrt_floor(q);
        if q <= rr * rr {
            ((s - rr) * m) / rr
        } else {
            let su = if s * s == q {
                s
            } else {
                s + 1
            };
            ((su - rr) * m + (rr - 1)) / rr
        }
    }
}

/// The signed ellipse distance agrees with containment: for an ellipse
/// with at least one unit of half-extent along each axis, the distance is
/// nonpositive exactly on the points the ellipse contains.
pub proof fn lemma_ellipse_distance_sign(center: Point, width: i64, height: i64, p: Point)
    requires
        (width as int) / 2 >= 1,
        (height as int) / 2 >= 1,
        center.in_range(),
        p.in_range(),
        -COORD_LIMIT <= width <= COORD_LIMIT,
        -COORD_LIMIT <= height <= COORD_LIMIT,
    ensures
        (ellipse_distance(center, width, height, p) <= 0) <==> ellipse_contains(
            center,
            width,
            height,
            p,
        ),
{
    let hw = (width as int) / 2;
    let hh = (height as int) / 2;
    let dx2 = 2 * (p.x - center.x);
    let dy2 = 2 * (p.y - center.y);
    let q = dx2 * dx2 * ((height as int) * (height as int)) + dy2 * dy2 * ((width as int) * (
    width as int));
    let rr = (width as int) * (height as int);
    let m = if hw <= hh {
        hw
    } else {
        hh
    };
    assert(width >= 2 && height >= 2) by {
        if width <= 1 {
            lemma_div_is_ordered(width as int, 1, 2);
            vstd::arithmetic::div_mod::lemma_basic_div(1, 2);
        }
        if height <= 1 {
            lemma_div_is_ordered(height as int, 1, 2);
            vstd::arithmetic::div_mod::lemma_basic_div(1, 2);
        }
    }
    assert(rr >= 1 && m >= 1 && rr * rr == ((width as int) * (width as int)) * ((
    height as int) * (height as int))) by (nonlinear_arith)
        requires
            rr == (width as int) * (height as int) && width >= 2 && height >= 2 && m >= 1,
    ;
    let s = sqrt_floor(q);
    assert(q >= 0) by (nonlinear_arith)
        requires
            q == dx2 * dx2 * ((height as int) * (height as int)) + dy2 * dy2 * ((width as int) * (
            width as int)),
    ;
    lemma_sqrt_floor_bounds(q, s);
    if q <= rr * rr {
        // inside or on the boundary: the root is at most the radius, so
        // the floored quotient is nonpositive
        assert(s <= rr) by (nonlinear_arith)
            requires s * s <= q && q <= rr * rr && s >= 0 && rr >= 0;
        assert((s - rr) * m <= 0) by (nonlinear_arith)
            requires s <= rr && m >= 1;
        lemma_div_is_ordered((s - rr) * m, 0, rr);
        vstd::arithmetic::div_mod::lemma_div_multiples_vanish(0, rr);
        assert(rr * 0 == 0) by (nonlinear_arith);
    } else {
        // strictly outside: the raised root clears the radius, so the
        // raised quotient is at least one
        let su = if s * s == q {
            s
        } else {
            s + 1
        };
        assert(su >= rr + 1) by (nonlinear_arith)
            requires
                s * s <= q && q < (s + 1) * (s + 1) && q > rr * rr && s >= 0 && rr >= 0 && su == (
                if s * s == q { s } else { s + 1 }),
        ;
        assert((su - rr) * m + (rr - 1) >= rr * 1) by (nonlinear_arith)
            requires su >= rr + 1 && m >= 1 && rr >= 1;
        vstd::arithmetic::div_mod::lemma_div_multiples_vanish(1, rr);
        lemma_div_is_ordered(rr * 1, (su - rr) * m + (rr - 1), rr);
    }
}

/// A square root witness satisfies the bracketing bounds.
proof fn lemma_sqrt_floor_bounds(q: int, s: int)
    requires
        q >= 0,
        s == sqrt_floor(q),
    ensures
        0 <= s,
        s * s <= q,
        q < (s + 1) * (s + 1),
{
    lemma_isqrt_exists(q);
    let r = choose|r: int| is_isqrt(q, r);
    assert(is_isqrt(q, r));
    crate::fixed::lemma_sqrt_floor_of(q, r);
}

/// Every nonnegative value has an integer square root.
proof fn lemma_isqrt_exists(q: int)
    requires
        q >= 0,
    ensures
        exists|r: int| #[trigger] is_isqrt(q, r),
    decreases q,
{
    if q == 0 {
        assert(is_isqrt(0, 0)) by (nonlinear_arith);
    } else {
        lemma_isqrt_exists(q - 1);
        let r = choose|r: int| #[trigger] is_isqrt(q - 1, r);
        if q < (r + 1) * (r + 1) {
            assert(is_isqrt(q, r));
        } else {
            assert(is_isqrt(q, r + 1)) by (nonlinear_arith)
                requires
                    r >= 0 && r * r <= q - 1 && q - 1 < (r + 1) * (r + 1) && q >= (r + 1) * (r
                        + 1),
        }
    }
}

impl Shape for Ellipse {
    open spec fn wf(&self) -> bool {
        &&& self.center.in_range()
        &&& -COORD_LIMIT <= self.width <= COORD_LIMIT
        &&& -COORD_LIMIT <= self.height <= COORD_LIMIT
    }

    open spec fn spec_contains(&self, point: Point) -> bool {
        ellipse_contains(self.center, self.width, self.height, point)
    }

    open spec fn spec_bounding_box(&self) -> (Point, Point) {
        let hw = (self.width as int) / 2;
        let hh = (self.height as int) / 2;
        (
            Point { x: (self.center.x - hw) as i64, y: (self.center.y - hh) as i64 },
            Point { x: (self.center.x + hw) as i64, y: (self.center.y + hh) as i64 },
        )
    }

    open spec fn spec_distance(&self, point: Point) -> int {
        ellipse_distance(self.center, self.width, self.height, point)
    }

    fn contains(&self, point: Point) -> (r: bool) {
        if self.width <= 0 || self.height <= 0 {
            return false;
        }
        let dx2: i128 = 2 * (point.x - self.center.x) as i128;
        let dy2: i128 = 2 * (point.y - self.center.y) as i128;
        let w: i128 = self.width as i128;
        let h: i128 = self.height as i128;
        proof {
            lemma_mul_bound(dx2 as int, dx2 as int, 0x4_000_000, 0x4_000_000);
            lemma_mul_bound(dy2 as int, dy2 as int, 0x4_000_000, 0x4_000_000);
            lemma_mul_bound(w as int, w as int, 0x1_000_000, 0x1_000_000);
            lemma_mul_bound(h as int, h as int, 0x1_000_000, 0x1_000_000);
            lemma_mul_bound(
                (dx2 * dx2) as int,
                (h * h) as int,
                0x10_000_000_000_000,
                0x1_000_000_000_000,
            );
            lemma_mul_bound(
                (dy2 * dy2) as int,
                (w * w) as int,
                0x10_000_000_000_000,
                0x1_000_000_000_000,
            );
            lemma_mul_bound(
                (w * w) as int,
                (h * h) as int,
                0x1_000_000_000_000,
                0x1_000_000_000_000,
            );
        }
        dx2 * dx2 * (h * h) + dy2 * dy2 * (w * w) <= (w * w) * (h * h)
    }

    fn bounding_box(&self) -> (r: (Point, Point)) {
        let hw = div_floor(self.width, 2);
        let hh = div_floor(self.height, 2);
        proof {
            lemma_half_in_range(self.width as int);
            lemma_half_in_range(self.height as int);
        }
        (
            Point::new(self.center.x - hw, self.center.y - hh),
            Point::new(self.center.x + hw, self.center.y + hh),
        )
    }

    fn distance(&self, point: Point) -> (r: i64) {
        let hw = div_floor(self.width, 2);
        let hh = div_floor(self.height, 2);
        proof {
            lemma_half_in_range(self.width as int);
            lemma_half_in_range(self.height as int);
        }
        if hw <= 0 || hh <= 0 {
            return DIST_INFINITE;
        }
        let dx2: i128 = 2 * (point.x - self.center.x) as i128;
        let dy2: i128 = 2 * (point.y - self.center.y) as i128;
        let w: i128 = self.width as i128;
        let h: i128 = self.height as i128;
        proof {
            // positive halves mean extents of at least two units
            assert(self.width >= 2 && self.height >= 2) by {
                if self.width <= 1 {
                    lemma_div_is_ordered(self.width as int, 1, 2);
                    vstd::arithmetic::div_mod::lemma_basic_div(1, 2);
                }
                if self.height <= 1 {
                    lemma_div_is_ordered(self.height as int, 1, 2);
                    vstd::arithmetic::div_mod::lemma_basic_div(1, 2);
                }
            }
            // twice a floored half never exceeds the whole
            vstd::arithmetic::div_mod::lemma_fundamental_div_mod(self.width as int, 2);
            vstd::arithmetic::div_mod::lemma_fundamental_div_mod(self.height as int, 2);
            vstd::arithmetic::div_mod::lemma_mod_division_less_than_divisor(self.width as int, 2);
            vstd::arithmetic::div_mod::lemma_mod_division_less_than_divisor(self.height as int, 2);
            lemma_mul_bound(dx2 as int, dx2 as int, 0x4_000_000, 0x4_000_000);
            lemma_mul_bound(dy2 as int, dy2 as int, 0x4_000_000, 0x4_000_000);
            lemma_mul_bound(w as int, w as int, 0x1_000_000, 0x1_000_000);
            lemma_mul_bound(h as int, h as int, 0x1_000_000, 0x1_000_000);
            lemma_mul_bound(
                (dx2 * dx2) as int,
                (h * h) as int,
                0x10_000_000_000_000,
                0x1_000_000_000_000,
            );
            lemma_mul_bound(
                (dy2 * dy2) as int,
                (w * w) as int,
                0x10_000_000_000_000,
                0x1_000_000_000_000,
            );
            assert((dx2 * dx2) as int * ((h * h) as int) >= 0) by (nonlinear_arith);
            assert((dy2 * dy2) as int * ((w * w) as int) >= 0) by (nonlinear_arith);
            lemma_mul_bound(w as int, h as int, 0x1_000_000, 0x1_000_000);
            assert((w as int) * (h as int) >= 4) by (nonlinear_arith)
                requires w as int >= 2 && h as int >= 2;
        }
        let q: i128 = dx2 * dx2 * (h * h) + dy2 * dy2 * (w * w);
        let rr: i128 = w * h;
        let m: i128 = if hw <= hh {
            hw as i128
        } else {
            hh as i128
        };
        let sv = isqrt_u128(q as u128);
        proof {
            if sv > 0x10_0000_0000_0000 {
                assert((sv as int) * (sv as int) > 0x100_0000_0000_0000_0000_0000_0000)
                    by (nonlinear_arith)
                    requires sv as int > 0x10_0000_0000_0000;
            }
        }
        let s: i128 = sv as i128;
        proof {
            lemma_mul_bound(rr as int, rr as int, 0x1_0000_0000_0000, 0x1_0000_0000_0000);
        }
        if q <= rr * rr {
            // inside or on the boundary: round the quotient down
            proof {
                lemma_ellipse_inside_range(q as int, rr as int, s as int, m as int);
                lemma_mul_bound((s - rr) as int, m as int, 0x2_0000_0000_0000, 0x800_000);
            }
            let num: i128 = (s - rr) * m;
            let r = div_floor_i128(num, rr);
            r as i64
        } else {
            // strictly outside: raise the root and the quotient, away from
            // zero, so the sign still tells containment
            let su: i128 = if s * s == q {
                s
            } else {
                s + 1
            };
            proof {
                lemma_ellipse_outside_range(
                    dx2 as int,
                    dy2 as int,
                    w as int,
                    h as int,
                    q as int,
                    rr as int,
                    s as int,
                    su as int,
                    m as int,
                );
                lemma_mul_bound((su - rr) as int, m as int, 0x20_0000_0000_0000, 0x800_000);
            }
            let num: i128 = (su - rr) * m + (rr - 1);
            let r = div_floor_i128(num, rr);
            r as i64
        }
    }
}

/// Halving keeps a bounded extent bounded.
proof fn lemma_half_in_range(w: int)
    requires
        -0x1_000_000 <= w <= 0x1_000_000,
    ensures
        -0x1_000_000 <= w / 2 <= 0x1_000_000,
{
    lemma_div_is_ordered(-0x1_000_000, w, 2);
    lemma_div_is_ordered(w, 0x1_000_000, 2);
}

/// Inside the boundary the floored quotient stays between the negated
/// smaller half-extent and zero.
proof fn lemma_ellipse_inside_range(q: int, rr: int, s: int, m: int)
    requires
        4 <= rr <= 0x1_0000_0000_0000,
        1 <= m <= 0x800_000,
        0 <= q <= rr * rr,
        is_isqrt(q, s),
    ensures
        0 <= s <= rr,
        -m <= ((s - rr) * m) / rr <= 0,
{
    assert(s <= rr) by (nonlinear_arith)
        requires s * s <= q && q <= rr * rr && s >= 0 && rr >= 0;
    assert((s - rr) * m <= 0 && rr * (-m) <= (s - rr) * m) by (nonlinear_arith)
        requires 0 <= s <= rr && m >= 1 && rr >= 1;
    lemma_div_is_ordered((s - rr) * m, 0, rr);
    lemma_div_multiples_vanish(0, rr);
    assert(rr * 0 == 0) by (nonlinear_arith);
    lemma_div_is_ordered(rr * (-m), (s - rr) * m, rr);
    lemma_div_multiples_vanish(-m, rr);
}

/// Outside the boundary the raised quotient is at least one and at most
/// two more than the sum of the doubled coordinate offsets.
proof fn lemma_ellipse_outside_range(
    dx2: int,
    dy2: int,
    w: int,
    h: int,
    q: int,
    rr: int,
    s: int,
    su: int,
    m: int,
)
    requires
        -0x4_000_000 <= dx2 <= 0x4_000_000,
        -0x4_000_000 <= dy2 <= 0x4_000_000,
        2 <= w <= 0x1_000_000,
        2 <= h <= 0x1_000_000,
        rr == w * h,
        q == dx2 * dx2 * (h * h) + dy2 * dy2 * (w * w),
        is_isqrt(q, s),
        q > rr * rr,
        su == if s * s == q { s } else { s + 1 },
        1 <= m,
        2 * m <= w,
        2 * m <= h,
    ensures
        rr + 1 <= su,
        su <= 0x20_0000_0000_0000,
        1 <= ((su - rr) * m + (rr - 1)) / rr <= 0x800_0002,
{
    assert(rr >= 4) by (nonlinear_arith)
        requires rr == w * h && w >= 2 && h >= 2;
    assert(su >= rr + 1) by (nonlinear_arith)
        requires
            s * s <= q && q < (s + 1) * (s + 1) && q > rr * rr && s >= 0 && rr >= 0 && su == (if s
                * s == q { s } else { s + 1 }),
    ;
    let adx = if dx2 >= 0 { dx2 } else { -dx2 };
    let ady = if dy2 >= 0 { dy2 } else { -dy2 };
    let a = adx * h;
    let b = ady * w;
    assert(a >= 0 && b >= 0 && a <= 0x4_000_000 * 0x1_000_000 && b <= 0x4_000_000 * 0x1_000_000)
        by (nonlinear_arith)
        requires
            0 <= adx <= 0x4_000_000 && 0 <= ady <= 0x4_000_000 && 2 <= w <= 0x1_000_000 && 2 <= h
                <= 0x1_000_000 && a == adx * h && b == ady * w,
    ;
    // the quadratic form is the sum of the two squares
    assert(q == a * a + b * b) by (nonlinear_arith)
        requires
            q == dx2 * dx2 * (h * h) + dy2 * dy2 * (w * w) && a == (if dx2 >= 0 { dx2 } else {
                -dx2
            }) * h && b == (if dy2 >= 0 { dy2 } else { -dy2 }) * w,
    ;
    assert(a * a + b * b <= (a + b) * (a + b)) by (nonlinear_arith)
        requires a >= 0 && b >= 0;
    // so the raised root is at most one past the offsets' sum
    assert(s <= a + b) by (nonlinear_arith)
        requires s >= 0 && a + b >= 0 && s * s <= (a + b) * (a + b);
    assert(su <= 0x20_0000_0000_0000);
    // the raised quotient is at least one...
    assert(rr * 1 <= (su - rr) * m + (rr - 1)) by (nonlinear_arith)
        requires su >= rr + 1 && m >= 1 && rr >= 1;
    lemma_div_is_ordered(rr * 1, (su - rr) * m + (rr - 1), rr);
    lemma_div_multiples_vanish(1, rr);
    // ... and at most the sum of the scaled offsets plus two
    assert((su - rr) * m + (rr - 1) <= (adx + ady + 2) * rr) by (nonlinear_arith)
        requires
            su <= a + b + 1 && a == adx * h && b == ady * w && rr == w * h && 1 <= m && 2 * m <= w
                && 2 * m <= h && 2 <= w && 2 <= h && 0 <= adx && 0 <= ady,
    ;
    lemma_div_is_ordered((su - rr) * m + (rr - 1), (adx + ady + 2) * rr, rr);
    lemma_div_multiples_vanish(adx + ady + 2, rr);
    assert(rr * (adx + ady + 2) == (adx + ady + 2) * rr) by (nonlinear_arith);
}

/// A rectangle given by its top-left corner and its extents, in
/// fixed-point units.  The extents are expected nonnegative; a rectangle
/// with a negative extent contains nothing.
pub struct Rectangle {
    /// The top-left corner of the rectangle.
    pub top_left: Point,
    /// The width of the rectangle.
    pub width: i64,
    /// The height of the rectangle.
    pub height: i64,
}

/// The clamped offset of a point into a rectangle along one axis: the
/// offset, raised to zero, then capped at the extent.
pub open spec fn clamp_extent(offset: int, extent: int) -> int {
    let raised = if offset >= 0 {
        offset
    } else {
        0
    };
    if raised <= extent {
        raised
    } else {
        extent
    }
}

/// The distance from a point to the rectangle: the Euclidean distance to
/// the point clamped into the rectangle; zero inside, never negative.
pub open spec fn rectangle_distance(tl: Point, width: i64, height: i64, p: Point) -> int {
    let cx = tl.x + clamp_extent(p.x - tl.x, width as int);
    let cy = tl.y + clamp_extent(p.y - tl.y, height as int);
    length_fx(p.x - cx, p.y - cy)
}

impl Shape for Rectangle {
    open spec fn wf(&self) -> bool {
        &&& self.top_left.in_range()
        &&& -COORD_LIMIT <= self.width <= COORD_LIMIT
        &&& -COORD_LIMIT <= self.height <= COORD_LIMIT
    }

    open spec fn spec_contains(&self, point: Point) -> bool {
        &&& self.top_left.x <= point.x <= self.top_left.x + self.width
        &&& self.top_left.y <= point.y <= self.top_left.y + self.height
    }

    open spec fn spec_bounding_box(&self) -> (Point, Point) {
        (
            self.top_left,
            Point {
                x: (self.top_left.x + self.width) as i64,
                y: (self.top_left.y + self.height) as i64,
            },
        )
    }

    open spec fn spec_distance(&self, point: Point) -> int {
        rectangle_distance(self.top_left, self.width, self.height, point)
    }

    fn contains(&self, point: Point) -> (r: bool) {
        point.x >= self.top_left.x && point.x <= self.top_left.x + self.width && point.y
            >= self.top_left.y && point.y <= self.top_left.y + self.height
    }

    fn bounding_box(&self) -> (r: (Point, Point)) {
        (
            self.top_left,
            Point::new(self.top_left.x + self.width, self.top_left.y + self.height),
        )
    }

    fn distance(&self, point: Point) -> (r: i64) {
        let ox = point.x - self.top_left.x;
        let oy = point.y - self.top_left.y;
        let rx = if ox >= 0 {
            ox
        } else {
            0
        };
        let dxc = if rx <= self.width {
            rx
        } else {
            self.width
        };
        let ry = if oy >= 0 {
            oy
        } else {
            0
        };
        let dyc = if ry <= self.height {
            ry
        } else {
            self.height
        };
        let cx = self.top_left.x + dxc;
        let cy = self.top_left.y + dyc;
        let ddx = point.x - cx;
        let ddy = point.y - cy;
        proof {
            lemma_mul_bound(ddx as int, ddx as int, 0x4_000_000, 0x4_000_000);
            lemma_mul_bound(ddy as int, ddy as int, 0x4_000_000, 0x4_000_000);
            assert(ddx as int * ddx as int >= 0 && ddy as int * ddy as int >= 0)
                by (nonlinear_arith);
        }
        let n = (ddx * ddx + ddy * ddy) as u64;
        let r = isqrt(n);
        proof {
            if r > 0x8_000_000 {
                assert(r as int * r as int > 0x20_000_000_000_000) by (nonlinear_arith)
                    requires r as int > 0x8_000_000;
            }
        }
        r as i64
    }
}

/// A polygon given by its ordered vertex sequence, in fixed-point
/// coordinates.  A meaningful distance needs at least two vertices; an
/// empty polygon contains nothing and has a collapsed bounding box.
pub struct Polygon {
    vertices: Vec<Point>,
}

impl View for Polygon {
    type V = Seq<Point>;

    closed spec fn view(&self) -> Seq<Point> {
        self.vertices@
    }
}

/// The index of the vertex before `i` in the closed vertex loop.
pub open spec fn prev_index(len: int, i: int) -> int {
    if i == 0 {
        len - 1
    } else {
        i - 1
    }
}

/// Whether a horizontal ray cast rightward from `p` crosses the edge from
/// `vj` to `vi`: the edge straddles the ray's height and `p` lies strictly
/// left of the edge's crossing point (an exact rational comparison).
pub open spec fn edge_crosses(vi: Point, vj: Point, p: Point) -> bool {
    &&& (vi.y > p.y) != (vj.y > p.y)
    &&& {
        let d = vj.y - vi.y;
        if d > 0 {
            (p.x - vi.x) * d < (vj.x - vi.x) * (p.y - vi.y)
        } else {
            (p.x - vi.x) * d > (vj.x - vi.x) * (p.y - vi.y)
        }
    }
}

/// How many of the first `k` edges of the closed vertex loop a horizontal
/// ray from `p` crosses.
pub open spec fn crossings_upto(vs: Seq<Point>, p: Point, k: int) -> int
    decreases k,
{
    if k <= 0 {
        0
    } else {
        crossings_upto(vs, p, k - 1) + if edge_crosses(
            vs[k - 1],
            vs[prev_index(vs.len() as int, k - 1)],
            p,
        ) {
            1int
        } else {
            0int
        }
    }
}

/// Even-odd containment: whether a ray from `p` crosses the polygon's
/// boundary an odd number of times.
pub open spec fn polygon_contains(vs: Seq<Point>, p: Point) -> bool {
    crossings_upto(vs, p, vs.len() as int) % 2 == 1
}

/// The smallest x (or y, by the flag) among the first `k` vertices.
pub open spec fn fold_min(vs: Seq<Point>, k: int, pick_x: bool) -> int
    decreases k,
{
    let c = if pick_x {
        vs[k - 1].x as int
    } else {
        vs[k - 1].y as int
    };
    if k <= 1 {
        c
    } else {
        let m = fold_min(vs, k - 1, pick_x);
        if c < m {
            c
        } else {
            m
        }
    }
}

/// The greatest x (or y, by the flag) among the first `k` vertices.
pub open spec fn fold_max(vs: Seq<Point>, k: int, pick_x: bool) -> int
    decreases k,
{
    let c = if pick_x {
        vs[k - 1].x as int
    } else {
        vs[k - 1].y as int
    };
    if k <= 1 {
        c
    } else {
        let m = fold_max(vs, k - 1, pick_x);
        if c > m {
            c
        } else {
            m
        }
    }
}

/// The distance from `p` to edge `k` of the closed vertex loop.
pub open spec fn edge_distance(vs: Seq<Point>, p: Point, k: int) -> int {
    let l = Line { start: vs[prev_index(vs.len() as int, k)], end: vs[k] };
    let c = closest_point_spec(l, p);
    length_fx(p.x - c.x, p.y - c.y)
}

/// The smallest distance from `p` to any of the first `k` edges.
pub open spec fn min_edge_distance(vs: Seq<Point>, p: Point, k: int) -> int
    decreases k,
{
    if k <= 1 {
        edge_distance(vs, p, 0)
    } else {
        let m = min_edge_distance(vs, p, k - 1);
        let d = edge_distance(vs, p, k - 1);
        if d < m {
            d
        } else {
            m
        }
    }
}

/// The signed distance from `p` to the polygon boundary: the smallest
/// edge distance, negated when `p` is inside; infinite with fewer than two
/// vertices.
pub open spec fn polygon_distance(vs: Seq<Point>, p: Point) -> int {
    if vs.len() < 2 {
        DIST_INFINITE as int
    } else {
        let m = min_edge_distance(vs, p, vs.len() as int);
        if polygon_contains(vs, p) {
            -m
        } else {
            m
        }
    }
}

impl Polygon {
    /// Creates a new empty polygon.
    pub fn new() -> (p: Self)
        ensures
            p@ == Seq::<Point>::empty(),
    {
        Polygon { vertices: Vec::new() }
    }

    /// Adds a vertex at the end of the polygon's vertex loop.
    pub fn add_vertex(&mut self, point: Point)
        ensures
            final(self)@ == old(self)@.push(point),
    {
        self.vertices.push(point);
    }

    /// The polygon's vertices, in order.
    pub fn vertices(&self) -> (r: &[Point])
        ensures
            r@ == self@,
    {
        self.vertices.as_slice()
    }

    /// Renders the polygon as a human-readable vertex listing: a header
    /// with the vertex count, then one line per vertex with its one-based
    /// index and its coordinates in pixels, two decimals each.
    pub fn fmt_display(&self) -> (s: String)
        ensures
            s@ == polygon_display_seq(self@),
    {
        let n = self.vertices.len();
        proof {
            reveal_strlit("Polygon with ");
            reveal_strlit(" vertices:\n");
        }
        let mut s = String::from_str("Polygon with ");
        let cnt = nat_dec(n as u64);
        s.append(cnt.as_str());
        s.append(" vertices:\n");
        proof {
            assert(polygon_display_seq(self@) =~= s@ + polygon_vertex_lines(self@, 0));
        }
        let mut i: usize = 0;
        while i < n
            invariant
                n == self@.len(),
                0 <= i <= n,
                polygon_display_seq(self@) == s@ + polygon_vertex_lines(self@, i as int),
            decreases n - i,
        {
            let v = self.vertices[i];
            let ghost pre = s@;
            proof {
                reveal_strlit("  Vertex ");
                reveal_strlit(": (");
                reveal_strlit(", ");
                reveal_strlit(")\n");
            }
            s.append("  Vertex ");
            let num = nat_dec((i + 1) as u64);
            s.append(num.as_str());
            s.append(": (");
            let xs = fx_dec(v.x);
            s.append(xs.as_str());
            s.append(", ");
            let ys = fx_dec(v.y);
            s.append(ys.as_str());
            s.append(")\n");
            proof {
                assert(s@ =~= pre + (seq![' ', ' ', 'V', 'e', 'r', 't', 'e', 'x', ' ']
                    + nat_dec_seq(i + 1) + seq![':', ' ', '('] + fx_dec_seq(v.x as int) + seq![
                    ',',
                    ' ',
                ] + fx_dec_seq(v.y as int) + seq![')', '\n']));
                assert(polygon_vertex_lines(self@, i as int) == (seq![
                    ' ',
                    ' ',
                    'V',
                    'e',
                    'r',
                    't',
                    'e',
                    'x',
                    ' ',
                ] + nat_dec_seq(i + 1) + seq![':', ' ', '('] + fx_dec_seq(v.x as int) + seq![
                    ',',
                    ' ',
                ] + fx_dec_seq(v.y as int) + seq![')', '\n']) + polygon_vertex_lines(
                    self@,
                    i + 1,
                ));
                assert(polygon_display_seq(self@) =~= s@ + polygon_vertex_lines(self@, i + 1));
            }
            i = i + 1;
        }
        proof {
            assert(polygon_vertex_lines(self@, n as int) =~= Seq::<char>::empty());
            assert(s@ =~= polygon_display_seq(self@));
        }
        s
    }
}

impl Shape for Polygon {
    open spec fn wf(&self) -> bool {
        forall|i: int| 0 <= i < self@.len() ==> (#[trigger] self@[i]).in_range()
    }

    open spec fn spec_contains(&self, point: Point) -> bool {
        polygon_contains(self@, point)
    }

    open spec fn spec_bounding_box(&self) -> (Point, Point) {
        if self@.len() == 0 {
            (Point { x: 0, y: 0 }, Point { x: 0, y: 0 })
        } else {
            (
                Point {
                    x: fold_min(self@, self@.len() as int, true) as i64,
                    y: fold_min(self@, self@.len() as int, false) as i64,
                },
                Point {
                    x: fold_max(self@, self@.len() as int, true) as i64,
                    y: fold_max(self@, self@.len() as int, false) as i64,
                },
            )
        }
    }

    open spec fn spec_distance(&self, point: Point) -> int {
        polygon_distance(self@, point)
    }

    fn contains(&self, point: Point) -> (r: bool) {
        let n = self.vertices.len();
        if n == 0 {
            return false;
        }
        let mut inside = false;
        let mut j: usize = n - 1;
        let mut i: usize = 0;
        while i < n
            invariant
                self.wf(),
                point.in_range(),
                n == self@.len(),
                0 < n,
                0 <= i <= n,
                j == prev_index(n as int, i as int),
                j < n,
                inside == (crossings_upto(self@, point, i as int) % 2 == 1),
            decreases n - i,
        {
            let vi = self.vertices[i];
            let vj = self.vertices[j];
            let straddles = (vi.y > point.y) != (vj.y > point.y);
            proof {
                lemma_mul_bound(
                    point.x as int - vi.x as int,
                    vj.y as int - vi.y as int,
                    0x2_000_000,
                    0x2_000_000,
                );
                lemma_mul_bound(
                    vj.x as int - vi.x as int,
                    point.y as int - vi.y as int,
                    0x2_000_000,
                    0x2_000_000,
                );
            }
            let d = vj.y - vi.y;
            let lhs = (point.x - vi.x) * d;
            let rhs = (vj.x - vi.x) * (point.y - vi.y);
            let crossed = straddles && if d > 0 {
                lhs < rhs
            } else {
                lhs > rhs
            };
            if crossed {
                inside = !inside;
            }
            proof {
                let c = crossings_upto(self@, point, i as int);
                assert(crossings_upto(self@, point, i + 1) == c + if edge_crosses(
                    self@[i as int],
                    self@[prev_index(n as int, i as int)],
                    point,
                ) {
                    1int
                } else {
                    0int
                });
                vstd::arithmetic::div_mod::lemma_add_mod_noop(c, 1, 2);
            }
            j = i;
            i = i + 1;
        }
        inside
    }

    fn bounding_box(&self) -> (r: (Point, Point)) {
        let n = self.vertices.len();
        if n == 0 {
            return (Point::new(0, 0), Point::new(0, 0));
        }
        let first = self.vertices[0];
        let mut min_x = first.x;
        let mut min_y = first.y;
        let mut max_x = first.x;
        let mut max_y = first.y;
        let mut i: usize = 1;
        while i < n
            invariant
                self.wf(),
                n == self@.len(),
                1 <= i <= n,
                min_x == fold_min(self@, i as int, true),
                min_y == fold_min(self@, i as int, false),
                max_x == fold_max(self@, i as int, true),
                max_y == fold_max(self@, i as int, false),
            decreases n - i,
        {
            let v = self.vertices[i];
            if v.x < min_x {
                min_x = v.x;
            }
            if v.y < min_y {
                min_y = v.y;
            }
            if v.x > max_x {
                max_x = v.x;
            }
            if v.y > max_y {
                max_y = v.y;
            }
            i = i + 1;
        }
        proof {
            lemma_fold_bounds(self@, n as int, true);
            lemma_fold_bounds(self@, n as int, false);
        }
        (Point::new(min_x, min_y), Point::new(max_x, max_y))
    }

    fn distance(&self, point: Point) -> (r: i64) {
        let n = self.vertices.len();
        if n < 2 {
            return DIST_INFINITE;
        }
        let mut min_distance = DIST_INFINITE;
        let mut k: usize = 0;
        while k < n
            invariant
                self.wf(),
                point.in_range(),
                n == self@.len(),
                2 <= n,
                0 <= k <= n,
                k == 0 ==> min_distance == DIST_INFINITE,
                k >= 1 ==> min_distance == min_edge_distance(self@, point, k as int),
                k >= 1 ==> min_distance <= 4 * COORD_LIMIT,
                min_distance >= 0,
            decreases n - k,
        {
            let a = if k == 0 {
                self.vertices[n - 1]
            } else {
                self.vertices[k - 1]
            };
            let b = self.vertices[k];
            let l = Line::new(a, b);
            let d = l.distance_to_point(&point);
            if d < min_distance {
                min_distance = d;
            }
            k = k + 1;
        }
        if self.contains(point) {
            -min_distance
        } else {
            min_distance
        }
    }
}

/// The folded minimum and maximum over in-range vertices stay in range.
proof fn lemma_fold_bounds(vs: Seq<Point>, k: int, pick_x: bool)
    requires
        1 <= k <= vs.len(),
        forall|i: int| 0 <= i < vs.len() ==> (#[trigger] vs[i]).in_range(),
    ensures
        -COORD_LIMIT <= fold_min(vs, k, pick_x) <= COORD_LIMIT,
        -COORD_LIMIT <= fold_max(vs, k, pick_x) <= COORD_LIMIT,
    decreases k,
{
    if k > 1 {
        lemma_fold_bounds(vs, k - 1, pick_x);
    }
}

/// The decimal digits of a nonnegative number, most significant first.
pub open spec fn nat_dec_seq(n: int) -> Seq<char>
    decreases n,
{
    if n < 10 {
        seq![digit_char(n)]
    } else {
        nat_dec_seq(n / 10) + seq![digit_char(n % 10)]
    }
}

/// A nonnegative number rendered in decimal.
fn nat_dec(n: u64) -> (s: String)
    ensures
        s@ == nat_dec_seq(n as int),
    decreases n,
{
    if n < 10 {
        String::from_str(digit_str(n as u8))
    } else {
        let mut s = nat_dec(n / 10);
        s.append(digit_str((n % 10) as u8));
        proof {
            assert(s@ =~= nat_dec_seq(n as int));
        }
        s
    }
}

/// A fixed-point coordinate rendered in pixels with two decimals, halves
/// rounding up, a leading minus sign for negative values.
pub open spec fn fx_dec_seq(v: int) -> Seq<char> {
    let a = if v >= 0 {
        v
    } else {
        -v
    };
    let whole0 = a / 256;
    let cents0 = ((a % 256) * 100 + 128) / 256;
    let whole = if cents0 == 100 {
        whole0 + 1
    } else {
        whole0
    };
    let cents = if cents0 == 100 {
        0int
    } else {
        cents0
    };
    let digits = nat_dec_seq(whole) + seq!['.', digit_char(cents / 10), digit_char(cents % 10)];
    if v < 0 {
        seq!['-'] + digits
    } else {
        digits
    }
}

/// A fixed-point coordinate rendered as [`fx_dec_seq`] shows it.
fn fx_dec(v: i64) -> (s: String)
    ensures
        s@ == fx_dec_seq(v as int),
{
    let av: i128 = v as i128;
    let a: u64 = if av >= 0 {
        av as u64
    } else {
        (-av) as u64
    };
    let whole0 = a / 256;
    let fr = a % 256;
    let cents0 = (fr * 100 + 128) / 256;
    proof {
        vstd::arithmetic::div_mod::lemma_mod_division_less_than_divisor(a as int, 256);
        lemma_div_is_ordered(fr as int * 100 + 128, (255 * 100 + 128) as int, 256);
        vstd::arithmetic::div_mod::lemma_fundamental_div_mod_converse_div(25628, 256, 100, 28);
        vstd::arithmetic::div_mod::lemma_div_pos_is_pos(fr as int * 100 + 128, 256);
    }
    let whole = if cents0 == 100 {
        whole0 + 1
    } else {
        whole0
    };
    let cents = if cents0 == 100 {
        0u64
    } else {
        cents0
    };
    let mut s = if v < 0 {
        proof {
            reveal_strlit("-");
        }
        String::from_str("-")
    } else {
        String::new()
    };
    let w = nat_dec(whole);
    s.append(w.as_str());
    proof {
        reveal_strlit(".");
    }
    s.append(".");
    proof {
        lemma_div_is_ordered(cents as int, 99, 10);
    }
    s.append(digit_str((cents / 10) as u8));
    s.append(digit_str((cents % 10) as u8));
    proof {
        assert(s@ =~= fx_dec_seq(v as int));
    }
    s
}

/// The lines of the vertex listing from vertex `i` on: each vertex's
/// one-based index and its coordinates in pixels.
pub open spec fn polygon_vertex_lines(vs: Seq<Point>, i: int) -> Seq<char>
    decreases vs.len() - i,
{
    if i < 0 || i >= vs.len() {
        Seq::empty()
    } else {
        seq![' ', ' ', 'V', 'e', 'r', 't', 'e', 'x', ' '] + nat_dec_seq(i + 1) + seq![
            ':',
            ' ',
            '(',
        ] + fx_dec_seq(vs[i].x as int) + seq![',', ' '] + fx_dec_seq(vs[i].y as int) + seq![
            ')',
            '\n',
        ] + polygon_vertex_lines(vs, i + 1)
    }
}

/// The vertex listing of a polygon: a header with the vertex count, then
/// one line per vertex.
pub open spec fn polygon_display_seq(vs: Seq<Point>) -> Seq<char> {
    seq!['P', 'o', 'l', 'y', 'g', 'o', 'n', ' ', 'w', 'i', 't', 'h', ' '] + nat_dec_seq(
        vs.len() as int,
    ) + seq![' ', 'v', 'e', 'r', 't', 'i', 'c', 'e', 's', ':', '\n'] + polygon_vertex_lines(vs, 0)
}

} // verus!
