//! An axis-aligned rectangle built on [`Point`]: containment, overlap,
//! union, intersection, translation and scaling about the center.

use vstd::prelude::*;
use crate::fixed::div_floor;
use crate::point::{Point, COORD_LIMIT};

verus! {

/// An axis-aligned rectangle defined by its minimum (top-left) and maximum
/// (bottom-right) corner points.  Constructing one through
/// [`Rect::from_points`] guarantees `min <= max` componentwise; the plain
/// constructor leaves that to the caller.
#[derive(Clone, Copy, PartialEq, Eq, Structural, Debug)]
pub struct Rect {
    pub min: Point,
    pub max: Point,
}

impl Rect {
    /// Both corners are within [`COORD_LIMIT`].
    pub open spec fn in_range(self) -> bool {
        self.min.in_range() && self.max.in_range()
    }

    /// Creates a new rectangle with the given corner points.
    pub fn new(min: Point, max: Point) -> (r: Self)
        ensures
            r == (Rect { min, max }),
    {
        Rect { min, max }
    }

    /// Creates a rectangle from any two opposite corners, picking the
    /// componentwise minimum and maximum.
    pub fn from_points(p1: Point, p2: Point) -> (r: Self)
        ensures
            r.min.x == if p1.x <= p2.x { p1.x } else { p2.x },
            r.min.y == if p1.y <= p2.y { p1.y } else { p2.y },
            r.max.x == if p1.x >= p2.x { p1.x } else { p2.x },
            r.max.y == if p1.y >= p2.y { p1.y } else { p2.y },
            r.min.x <= r.max.x && r.min.y <= r.max.y,
    {
        let min_x = if p1.x <= p2.x {
            p1.x
        } else {
            p2.x
        };
        let min_y = if p1.y <= p2.y {
            p1.y
        } else {
            p2.y
        };
        let max_x = if p1.x >= p2.x {
            p1.x
        } else {
            p2.x
        };
        let max_y = if p1.y >= p2.y {
            p1.y
        } else {
            p2.y
        };
        Rect { min: Point::new(min_x, min_y), max: Point::new(max_x, max_y) }
    }

    /// The width of the rectangle, in fixed-point units.
    pub fn width(&self) -> (w: i64)
        requires
            self.in_range(),
        ensures
            w == self.max.x - self.min.x,
    {
        self.max.x - self.min.x
    }

    /// The height of the rectangle, in fixed-point units.
    pub fn height(&self) -> (h: i64)
        requires
            self.in_range(),
        ensures
            h == self.max.y - self.min.y,
    {
        self.max.y - self.min.y
    }

    /// The area of the rectangle, in fixed-point units (256 units make one
    /// square pixel), rounded down.
    pub fn area(&self) -> (a: i64)
        requires
            self.in_range(),
        ensures
            a == ((self.max.x - self.min.x) * (self.max.y - self.min.y)) / 256,
    {
        let w = self.max.x - self.min.x;
        let h = self.max.y - self.min.y;
        proof {
            crate::line::lemma_diff_product_bound(w as int, h as int);
            vstd::arithmetic::div_mod::lemma_div_is_ordered(
                -0x4_0000_0000_0000,
                w as int * h as int,
                256,
            );
            vstd::arithmetic::div_mod::lemma_div_is_ordered(
                w as int * h as int,
                0x4_0000_0000_0000,
                256,
            );
        }
        div_floor(w * h, 256)
    }

    /// The center point of the rectangle, each coordinate rounded down.
    pub fn center(&self) -> (c: Point)
        requires
            self.in_range(),
        ensures
            c.x == (self.min.x + self.max.x) / 2,
            c.y == (self.min.y + self.max.y) / 2,
    {
        Point::new(
            div_floor(self.min.x + self.max.x, 2),
            div_floor(self.min.y + self.max.y, 2),
        )
    }

    /// Whether the rectangle contains a point, with inclusive bounds on all
    /// four sides.
    pub fn contains_point(&self, point: &Point) -> (r: bool)
        ensures
            r == (self.min.x <= point.x <= self.max.x && self.min.y <= point.y <= self.max.y),
    {
        point.x >= self.min.x && point.x <= self.max.x && point.y >= self.min.y && point.y
            <= self.max.y
    }

    /// Whether this rectangle and another overlap, boundaries included: a
    /// separating-axis test on both axes.
    pub fn intersects(&self, other: &Rect) -> (r: bool)
        ensures
            r == (self.min.x <= other.max.x && self.max.x >= other.min.x && self.min.y
                <= other.max.y && self.max.y >= other.min.y),
    {
        self.min.x <= other.max.x && self.max.x >= other.min.x && self.min.y <= other.max.y
            && self.max.y >= other.min.y
    }

    /// The smallest rectangle containing this rectangle and another: the
    /// componentwise minimum and maximum of the corners.
    pub fn union(&self, other: &Rect) -> (r: Rect)
        ensures
            r.min.x == if self.min.x <= other.min.x { self.min.x } else { other.min.x },
            r.min.y == if self.min.y <= other.min.y { self.min.y } else { other.min.y },
            r.max.x == if self.max.x >= other.max.x { self.max.x } else { other.max.x },
            r.max.y == if self.max.y >= other.max.y { self.max.y } else { other.max.y },
    {
        let min_x = if self.min.x <= other.min.x {
            self.min.x
        } else {
            other.min.x
        };
        let min_y = if self.min.y <= other.min.y {
            self.min.y
        } else {
            other.min.y
        };
        let max_x = if self.max.x >= other.max.x {
            self.max.x
        } else {
            other.max.x
        };
        let max_y = if self.max.y >= other.max.y {
            self.max.y
        } else {
            other.max.y
        };
        Rect { min: Point::new(min_x, min_y), max: Point::new(max_x, max_y) }
    }

    /// The overlap of this rectangle and another: `None` exactly when the
    /// candidate corners cross on either axis.
    pub fn intersection(&self, other: &Rect) -> (r: Option<Rect>)
        ensures
            r is Some <==> {
                let min_x = if self.min.x >= other.min.x { self.min.x } else { other.min.x };
                let min_y = if self.min.y >= other.min.y { self.min.y } else { other.min.y };
                let max_x = if self.max.x <= other.max.x { self.max.x } else { other.max.x };
                let max_y = if self.max.y <= other.max.y { self.max.y } else { other.max.y };
                min_x <= max_x && min_y <= max_y
            },
            r is Some ==> r->0 == (Rect {
                min: Point {
                    x: if self.min.x >= other.min.x { self.min.x } else { other.min.x },
                    y: if self.min.y >= other.min.y { self.min.y } else { other.min.y },
                },
                max: Point {
                    x: if self.max.x <= other.max.x { self.max.x } else { other.max.x },
                    y: if self.max.y <= other.max.y { self.max.y } else { other.max.y },
                },
            }),
    {
        let min_x = if self.min.x >= other.min.x {
            self.min.x
        } else {
            other.min.x
        };
        let min_y = if self.min.y >= other.min.y {
            self.min.y
        } else {
            other.min.y
        };
        let max_x = if self.max.x <= other.max.x {
            self.max.x
        } else {
            other.max.x
        };
        let max_y = if self.max.y <= other.max.y {
            self.max.y
        } else {
            other.max.y
        };
        if min_x <= max_x && min_y <= max_y {
            Some(Rect { min: Point::new(min_x, min_y), max: Point::new(max_x, max_y) })
        } else {
            None
        }
    }

    /// This rectangle shifted by the given offset.
    pub fn translate(&self, offset: Point) -> (r: Rect)
        requires
            self.in_range(),
            offset.in_range(),
        ensures
            r.min.x == self.min.x + offset.x,
            r.min.y == self.min.y + offset.y,
            r.max.x == self.max.x + offset.x,
            r.max.y == self.max.y + offset.y,
    {
        Rect { min: self.min.add(offset), max: self.max.add(offset) }
    }

    /// This rectangle scaled about its center by a fixed-point factor (256
    /// standing for one): the half-extents are scaled and rounded down.
    pub fn scale(&self, factor: i64) -> (r: Rect)
        requires
            self.in_range(),
            -COORD_LIMIT <= factor <= COORD_LIMIT,
        ensures
            r.min.x == (self.min.x + self.max.x) / 2 - ((self.max.x - self.min.x) * factor)
                / 512,
            r.min.y == (self.min.y + self.max.y) / 2 - ((self.max.y - self.min.y) * factor)
                / 512,
            r.max.x == (self.min.x + self.max.x) / 2 + ((self.max.x - self.min.x) * factor)
                / 512,
            r.max.y == (self.min.y + self.max.y) / 2 + ((self.max.y - self.min.y) * factor)
                / 512,
    {
        let c = self.center();
        let w = self.max.x - self.min.x;
        let h = self.max.y - self.min.y;
        proof {
            lemma_scale_product_bound(w as int, factor as int);
            lemma_scale_product_bound(h as int, factor as int);
            vstd::arithmetic::div_mod::lemma_div_is_ordered(
                -0x2_0000_0000_0000,
                w as int * factor as int,
                512,
            );
            vstd::arithmetic::div_mod::lemma_div_is_ordered(
                w as int * factor as int,
                0x2_0000_0000_0000,
                512,
            );
            vstd::arithmetic::div_mod::lemma_div_is_ordered(
                -0x2_0000_0000_0000,
                h as int * factor as int,
                512,
            );
            vstd::arithmetic::div_mod::lemma_div_is_ordered(
                h as int * factor as int,
                0x2_0000_0000_0000,
                512,
            );
        }
        let half_x = div_floor(w * factor, 512);
        let half_y = div_floor(h * factor, 512);
        Rect {
            min: Point::new(c.x - half_x, c.y - half_y),
            max: Point::new(c.x + half_x, c.y + half_y),
        }
    }
}

/// The product of an extent (twice the coordinate range) and a scale
/// factor stays within 2^61.
proof fn lemma_scale_product_bound(a: int, b: int)
    requires
        -0x200_0000 <= a <= 0x200_0000,
        -0x100_0000 <= b <= 0x100_0000,
    ensures
        -0x2_0000_0000_0000 <= a * b <= 0x2_0000_0000_0000,
{
    assert(-0x2_0000_0000_0000 <= a * b <= 0x2_0000_0000_0000) by (nonlinear_arith)
        requires -0x200_0000 <= a <= 0x200_0000 && -0x100_0000 <= b <= 0x100_0000;
}

} // verus!
