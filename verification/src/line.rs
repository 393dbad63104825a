//! A 2D line segment built on [`Point`]: length, midpoint, slope,
//! intersection tests, intersection point, closest point on the segment and
//! distance to a point.

use vstd::prelude::*;
use vstd::arithmetic::div_mod::{
    lemma_div_is_ordered, lemma_div_multiples_vanish, lemma_div_pos_is_pos,
};
use crate::fixed::{div_floor, div_floor_i128};
use crate::point::{length_fx, Point, COORD_LIMIT};

verus! {

/// A line segment defined by its start and end points.
#[derive(Clone, Copy, PartialEq, Eq, Structural, Debug)]
pub struct Line {
    pub start: Point,
    pub end: Point,
}

/// The z-component of the cross product of the vectors from `p` to `q` and
/// from `q` to `r`: positive when the triplet turns clockwise in screen
/// coordinates, zero when the three points are collinear.
pub open spec fn orient_val(p: Point, q: Point, r: Point) -> int {
    (q.y - p.y) * (r.x - q.x) - (q.x - p.x) * (r.y - q.y)
}

/// The orientation of a point triplet: 0 collinear, 1 for a positive cross
/// product, 2 for a negative one.
pub open spec fn orient_class(p: Point, q: Point, r: Point) -> int {
    let v = orient_val(p, q, r);
    if v == 0 {
        0
    } else if v > 0 {
        1
    } else {
        2
    }
}

/// Whether `q` falls within the axis-aligned bounding box of `p` and `r`.
pub open spec fn within_box(p: Point, q: Point, r: Point) -> bool {
    &&& q.x <= if p.x >= r.x { p.x } else { r.x }
    &&& q.x >= if p.x <= r.x { p.x } else { r.x }
    &&& q.y <= if p.y >= r.y { p.y } else { r.y }
    &&& q.y >= if p.y <= r.y { p.y } else { r.y }
}

/// Whether two segments intersect: their endpoint orientations differ on
/// both sides, or a collinear endpoint falls within the other segment's
/// bounding box.
pub open spec fn segments_intersect(a: Line, b: Line) -> bool {
    let o1 = orient_class(a.start, a.end, b.start);
    let o2 = orient_class(a.start, a.end, b.end);
    let o3 = orient_class(b.start, b.end, a.start);
    let o4 = orient_class(b.start, b.end, a.end);
    if o1 != o2 && o3 != o4 {
        true
    } else if o1 == 0 && within_box(a.start, b.start, a.end) {
        true
    } else if o2 == 0 && within_box(a.start, b.end, a.end) {
        true
    } else if o3 == 0 && within_box(b.start, a.start, b.end) {
        true
    } else if o4 == 0 && within_box(b.start, a.end, b.end) {
        true
    } else {
        false
    }
}

/// The denominator of the two-line parametric system: zero exactly when
/// the segments are parallel.
pub open spec fn isect_denom(a: Line, b: Line) -> int {
    (a.start.x - a.end.x) * (b.start.y - b.end.y) - (a.start.y - a.end.y) * (b.start.x
        - b.end.x)
}

/// The numerator of the parameter, along `a`, of the crossing point of the
/// two carrier lines.
pub open spec fn isect_num(a: Line, b: Line) -> int {
    (a.start.x - b.start.x) * (b.start.y - b.end.y) - (a.start.y - b.start.y) * (b.start.x
        - b.end.x)
}

/// The crossing point of the two carrier lines, each coordinate rounded
/// down, with the parameter's sign normalized to a positive denominator.
pub open spec fn isect_point(a: Line, b: Line) -> Point {
    let d0 = isect_denom(a, b);
    let n0 = isect_num(a, b);
    let n = if d0 < 0 {
        -n0
    } else {
        n0
    };
    let d = if d0 < 0 {
        -d0
    } else {
        d0
    };
    Point {
        x: (a.start.x + (n * (a.end.x - a.start.x)) / d) as i64,
        y: (a.start.y + (n * (a.end.y - a.start.y)) / d) as i64,
    }
}

/// The point of the segment nearest to `p`: the projection of `p` onto the
/// segment's carrier line, with the projection parameter clamped to the
/// segment; the start point when the segment is degenerate.  Coordinates
/// are rounded down.
pub open spec fn closest_point_spec(l: Line, p: Point) -> Point {
    let lvx = l.end.x - l.start.x;
    let lvy = l.end.y - l.start.y;
    let num = (p.x - l.start.x) * lvx + (p.y - l.start.y) * lvy;
    let den = lvx * lvx + lvy * lvy;
    if den == 0 || num <= 0 {
        l.start
    } else if num >= den {
        l.end
    } else {
        Point {
            x: (l.start.x + (lvx * num) / den) as i64,
            y: (l.start.y + (lvy * num) / den) as i64,
        }
    }
}

impl Line {
    /// Both endpoints are within [`COORD_LIMIT`].
    pub open spec fn in_range(self) -> bool {
        self.start.in_range() && self.end.in_range()
    }

    /// Creates a new line segment with the given start and end points.
    pub fn new(start: Point, end: Point) -> (l: Self)
        ensures
            l == (Line { start, end }),
    {
        Line { start, end }
    }

    /// The length of the segment, in fixed-point units.
    pub fn length(&self) -> (r: i64)
        requires
            self.in_range(),
        ensures
            r == length_fx(self.start.x - self.end.x, self.start.y - self.end.y),
    {
        self.start.distance(&self.end)
    }

    /// The midpoint of the segment, each coordinate rounded down.
    pub fn midpoint(&self) -> (p: Point)
        requires
            self.in_range(),
        ensures
            p.x == (self.start.x + self.end.x) / 2,
            p.y == (self.start.y + self.end.y) / 2,
    {
        Point::new(
            div_floor(self.start.x + self.end.x, 2),
            div_floor(self.start.y + self.end.y, 2),
        )
    }

    /// Whether this segment intersects another, including touching at an
    /// endpoint and collinear overlap.
    pub fn intersects(&self, other: &Line) -> (r: bool)
        requires
            self.in_range(),
            other.in_range(),
        ensures
            r == segments_intersect(*self, *other),
    {
        let o1 = orientation(&self.start, &self.end, &other.start);
        let o2 = orientation(&self.start, &self.end, &other.end);
        let o3 = orientation(&other.start, &other.end, &self.start);
        let o4 = orientation(&other.start, &other.end, &self.end);

        if o1 != o2 && o3 != o4 {
            true
        } else if o1 == 0 && on_segment(&self.start, &other.start, &self.end) {
            true
        } else if o2 == 0 && on_segment(&self.start, &other.end, &self.end) {
            true
        } else if o3 == 0 && on_segment(&other.start, &self.start, &other.end) {
            true
        } else if o4 == 0 && on_segment(&other.start, &self.end, &other.end) {
            true
        } else {
            false
        }
    }

    /// The point where this segment crosses another: `None` when the
    /// segments do not intersect or are parallel, otherwise the crossing
    /// point of the two carrier lines, each coordinate rounded down.
    pub fn intersection_point(&self, other: &Line) -> (r: Option<Point>)
        requires
            self.in_range(),
            other.in_range(),
        ensures
            r is Some <==> segments_intersect(*self, *other) && isect_denom(*self, *other) != 0,
            r is Some ==> r->0 == isect_point(*self, *other),
    {
        if !self.intersects(other) {
            return None;
        }
        let x1 = self.start.x;
        let y1 = self.start.y;
        let x2 = self.end.x;
        let y2 = self.end.y;
        let x3 = other.start.x;
        let y3 = other.start.y;
        let x4 = other.end.x;
        let y4 = other.end.y;
        proof {
            lemma_diff_product_bound(x1 - x2, y3 - y4);
            lemma_diff_product_bound(y1 - y2, x3 - x4);
            lemma_diff_product_bound(x1 - x3, y3 - y4);
            lemma_diff_product_bound(y1 - y3, x3 - x4);
        }
        let denom = (x1 - x2) * (y3 - y4) - (y1 - y2) * (x3 - x4);
        if denom == 0 {
            return None;
        }
        let t_num = (x1 - x3) * (y3 - y4) - (y1 - y3) * (x3 - x4);
        proof {
            lemma_isect_param(*self, *other);
        }
        let n = if denom < 0 {
            -t_num
        } else {
            t_num
        };
        let d = if denom < 0 {
            -denom
        } else {
            denom
        };
        proof {
            lemma_muldiv_bound_128(n as int, d as int, x2 - x1);
            lemma_muldiv_bound_128(n as int, d as int, y2 - y1);
            lemma_muldiv_between(n as int, d as int, x2 - x1);
            lemma_muldiv_between(n as int, d as int, y2 - y1);
        }
        let qx = div_floor_i128(n as i128 * (x2 - x1) as i128, d as i128);
        let qy = div_floor_i128(n as i128 * (y2 - y1) as i128, d as i128);
        Some(Point::new(x1 + qx as i64, y1 + qy as i64))
    }

    /// The point on this segment closest to the given point: the clamped
    /// projection onto the segment, as [`closest_point_spec`].
    pub fn closest_point(&self, point: &Point) -> (r: Point)
        requires
            self.in_range(),
            point.in_range(),
        ensures
            r == closest_point_spec(*self, *point),
            r.in_range(),
    {
        let lvx = self.end.x - self.start.x;
        let lvy = self.end.y - self.start.y;
        let pvx = point.x - self.start.x;
        let pvy = point.y - self.start.y;
        proof {
            lemma_diff_product_bound(lvx as int, lvx as int);
            lemma_diff_product_bound(lvy as int, lvy as int);
            lemma_diff_product_bound(pvx as int, lvx as int);
            lemma_diff_product_bound(pvy as int, lvy as int);
            assert(lvx as int * lvx as int >= 0 && lvy as int * lvy as int >= 0)
                by (nonlinear_arith);
        }
        let den = lvx * lvx + lvy * lvy;
        let num = pvx * lvx + pvy * lvy;
        if den == 0 || num <= 0 {
            self.start
        } else if num >= den {
            self.end
        } else {
            proof {
                lemma_muldiv_bound_128(num as int, den as int, lvx as int);
                lemma_muldiv_bound_128(num as int, den as int, lvy as int);
                lemma_muldiv_between(num as int, den as int, lvx as int);
                lemma_muldiv_between(num as int, den as int, lvy as int);
            }
            let qx = div_floor_i128(lvx as i128 * num as i128, den as i128);
            let qy = div_floor_i128(lvy as i128 * num as i128, den as i128);
            proof {
                assert(lvx as int * num as int == num as int * lvx as int)
                    by (nonlinear_arith);
                assert(lvy as int * num as int == num as int * lvy as int)
                    by (nonlinear_arith);
            }
            Point::new(self.start.x + qx as i64, self.start.y + qy as i64)
        }
    }

    /// The distance from the given point to this segment, in fixed-point
    /// units: the distance to the closest point on the segment.
    pub fn distance_to_point(&self, point: &Point) -> (r: i64)
        requires
            self.in_range(),
            point.in_range(),
        ensures
            r == length_fx(
                point.x - closest_point_spec(*self, *point).x,
                point.y - closest_point_spec(*self, *point).y,
            ),
            0 <= r <= 4 * COORD_LIMIT,
    {
        let c = self.closest_point(point);
        point.distance(&c)
    }

    /// The slope of the segment as a fixed-point value (256 standing for
    /// one), rounded down; `None` when the segment is vertical.
    pub fn slope(&self) -> (r: Option<i64>)
        requires
            self.in_range(),
        ensures
            r is None <==> self.end.x == self.start.x,
            r is Some ==> r->0 == {
                let dx = self.end.x - self.start.x;
                let dy = self.end.y - self.start.y;
                if dx < 0 {
                    (-256 * dy) / -dx
                } else {
                    (256 * dy) / dx
                }
            },
    {
        let dx = self.end.x - self.start.x;
        let dy = self.end.y - self.start.y;
        if dx == 0 {
            None
        } else if dx < 0 {
            Some(div_floor(-256 * dy, -dx))
        } else {
            Some(div_floor(256 * dy, dx))
        }
    }
}

/// With a parallel pair (the cross product of `u` and `v` is zero) and `v`
/// between the zero vector and `u` componentwise, the cross products of any
/// vector `w` with `v` and with `u` satisfy P * (Q - P) >= 0, for
/// P = w x v and Q = w x u.
proof fn lemma_between_cross(ux: int, uy: int, vx: int, vy: int, wx: int, wy: int)
    requires
        ux * vy - uy * vx == 0,
        (0 <= vx <= ux) || (ux <= vx <= 0),
        (0 <= vy <= uy) || (uy <= vy <= 0),
    ensures
        (wx * vy - wy * vx) * ((wx * uy - wy * ux) - (wx * vy - wy * vx)) >= 0,
{
    let p = wx * vy - wy * vx;
    let q = wx * uy - wy * ux;
    if ux != 0 {
        assert(p * ux == q * vx) by (nonlinear_arith)
            requires
                p == wx * vy - wy * vx,
                q == wx * uy - wy * ux,
                ux * vy - uy * vx == 0,
        ;
        assert(vx * (ux - vx) >= 0) by (nonlinear_arith)
            requires (0 <= vx <= ux) || (ux <= vx <= 0);
        assert(p * (q - p) * (ux * ux) == q * q * (vx * (ux - vx))) by (nonlinear_arith)
            requires p * ux == q * vx;
        assert(q * q * (vx * (ux - vx)) >= 0) by (nonlinear_arith)
            requires vx * (ux - vx) >= 0;
        assert(p * (q - p) >= 0) by (nonlinear_arith)
            requires p * (q - p) * (ux * ux) >= 0 && ux != 0;
    } else if uy != 0 {
        assert(p * uy == q * vy) by (nonlinear_arith)
            requires
                p == wx * vy - wy * vx,
                q == wx * uy - wy * ux,
                ux * vy - uy * vx == 0,
        ;
        assert(vy * (uy - vy) >= 0) by (nonlinear_arith)
            requires (0 <= vy <= uy) || (uy <= vy <= 0);
        assert(p * (q - p) * (uy * uy) == q * q * (vy * (uy - vy))) by (nonlinear_arith)
            requires p * uy == q * vy;
        assert(q * q * (vy * (uy - vy)) >= 0) by (nonlinear_arith)
            requires vy * (uy - vy) >= 0;
        assert(p * (q - p) >= 0) by (nonlinear_arith)
            requires p * (q - p) * (uy * uy) >= 0 && uy != 0;
    } else {
        assert(vx == 0 && vy == 0);
        assert(p == 0 && q == 0) by (nonlinear_arith)
            requires
                p == wx * 0 - wy * 0,
                q == wx * 0 - wy * 0,
        ;
    }
}

/// When two segments intersect and are not parallel, the parameter of the
/// crossing point along the first segment lies between zero and one: the
/// numerator is between zero and the denominator, sign included.
proof fn lemma_isect_param(a: Line, b: Line)
    requires
        segments_intersect(a, b),
        isect_denom(a, b) != 0,
    ensures
        isect_denom(a, b) > 0 ==> 0 <= isect_num(a, b) <= isect_denom(a, b),
        isect_denom(a, b) < 0 ==> isect_denom(a, b) <= isect_num(a, b) <= 0,
{
    let ax = a.start.x as int;
    let ay = a.start.y as int;
    let bx = a.end.x as int;
    let by = a.end.y as int;
    let cx = b.start.x as int;
    let cy = b.start.y as int;
    let dx = b.end.x as int;
    let dy = b.end.y as int;
    let n0 = isect_num(a, b);
    let d0 = isect_denom(a, b);
    let o1v = orient_val(a.start, a.end, b.start);
    let o2v = orient_val(a.start, a.end, b.end);
    let o3v = orient_val(b.start, b.end, a.start);
    let o4v = orient_val(b.start, b.end, a.end);
    // the parametric system is made of the same cross products as the
    // orientation tests
    assert(n0 == -o3v && d0 == o4v - o3v) by (nonlinear_arith)
        requires
            n0 == (ax - cx) * (cy - dy) - (ay - cy) * (cx - dx),
            d0 == (ax - bx) * (cy - dy) - (ay - by) * (cx - dx),
            o3v == (dy - cy) * (ax - dx) - (dx - cx) * (ay - dy),
            o4v == (dy - cy) * (bx - dx) - (dx - cx) * (by - dy),
    ;
    let o1 = orient_class(a.start, a.end, b.start);
    let o2 = orient_class(a.start, a.end, b.end);
    let o3 = orient_class(b.start, b.end, a.start);
    let o4 = orient_class(b.start, b.end, a.end);
    let ux = bx - ax;
    let uy = by - ay;
    let wx = dx - cx;
    let wy = dy - cy;
    if o1 != o2 && o3 != o4 {
        // a strict orientation split: the two endpoint orientations cannot
        // share a sign
        assert(o3v * o4v <= 0) by (nonlinear_arith)
            requires
                (o3v == 0) || (o3v > 0 && o4v <= 0) || (o3v < 0 && o4v >= 0) || (o4v == 0),
        ;
    } else if o1 == 0 && within_box(a.start, b.start, a.end) {
        let vx = cx - ax;
        let vy = cy - ay;
        assert(ux * vy - uy * vx == 0) by (nonlinear_arith)
            requires
                o1v == 0,
                o1v == (by - ay) * (cx - bx) - (bx - ax) * (cy - by),
                ux == bx - ax && uy == by - ay && vx == cx - ax && vy == cy - ay,
        ;
        lemma_between_cross(ux, uy, vx, vy, wx, wy);
        let p = wx * vy - wy * vx;
        let q = wx * uy - wy * ux;
        assert(o3v == p && o4v == p - q) by (nonlinear_arith)
            requires
                o3v == (dy - cy) * (ax - dx) - (dx - cx) * (ay - dy),
                o4v == (dy - cy) * (bx - dx) - (dx - cx) * (by - dy),
                p == wx * vy - wy * vx,
                q == wx * uy - wy * ux,
                ux == bx - ax && uy == by - ay && vx == cx - ax && vy == cy - ay,
                wx == dx - cx && wy == dy - cy,
        ;
        assert(o3v * o4v <= 0) by (nonlinear_arith)
            requires o3v == p && o4v == p - q && p * (q - p) >= 0;
    } else if o2 == 0 && within_box(a.start, b.end, a.end) {
        let vx = dx - ax;
        let vy = dy - ay;
        assert(ux * vy - uy * vx == 0) by (nonlinear_arith)
            requires
                o2v == 0,
                o2v == (by - ay) * (dx - bx) - (bx - ax) * (dy - by),
                ux == bx - ax && uy == by - ay && vx == dx - ax && vy == dy - ay,
        ;
        lemma_between_cross(ux, uy, vx, vy, wx, wy);
        let p = wx * vy - wy * vx;
        let q = wx * uy - wy * ux;
        assert(o3v == p && o4v == p - q) by (nonlinear_arith)
            requires
                o3v == (dy - cy) * (ax - dx) - (dx - cx) * (ay - dy),
                o4v == (dy - cy) * (bx - dx) - (dx - cx) * (by - dy),
                p == wx * vy - wy * vx,
                q == wx * uy - wy * ux,
                ux == bx - ax && uy == by - ay && vx == dx - ax && vy == dy - ay,
                wx == dx - cx && wy == dy - cy,
        ;
        assert(o3v * o4v <= 0) by (nonlinear_arith)
            requires o3v == p && o4v == p - q && p * (q - p) >= 0;
    } else if o3 == 0 && within_box(b.start, a.start, b.end) {
        assert(o3v * o4v == 0) by (nonlinear_arith)
            requires o3v == 0;
    } else {
        assert(o4 == 0 && within_box(b.start, a.end, b.end));
        assert(o3v * o4v == 0) by (nonlinear_arith)
            requires o4v == 0;
    }
    // from a nonpositive product of the two orientations, the parameter
    // bounds follow
    assert(n0 * d0 >= 0 && n0 * (d0 - n0) >= 0) by (nonlinear_arith)
        requires n0 == -o3v && d0 == o4v - o3v && o3v * o4v <= 0;
    if d0 > 0 {
        assert(n0 >= 0) by (nonlinear_arith)
            requires d0 > 0 && n0 * d0 >= 0;
        assert(n0 <= d0) by (nonlinear_arith)
            requires n0 >= 0 && n0 * (d0 - n0) >= 0 && d0 > 0;
    } else {
        assert(n0 <= 0) by (nonlinear_arith)
            requires d0 < 0 && n0 * d0 >= 0;
        assert(n0 >= d0) by (nonlinear_arith)
            requires n0 <= 0 && n0 * (d0 - n0) >= 0 && d0 < 0;
    }
}

/// With the fraction n/d between zero and one, multiplying a value by it
/// (rounding down) keeps the result between zero and that value.
proof fn lemma_muldiv_between(n: int, d: int, m: int)
    requires
        0 < d,
        0 <= n <= d,
    ensures
        m >= 0 ==> 0 <= (n * m) / d <= m,
        m < 0 ==> m <= (n * m) / d <= 0,
{
    if m >= 0 {
        assert(0 <= n * m <= d * m) by (nonlinear_arith)
            requires 0 <= n <= d && m >= 0;
        lemma_div_pos_is_pos(n * m, d);
        lemma_div_is_ordered(n * m, d * m, d);
        lemma_div_multiples_vanish(m, d);
    } else {
        assert(d * m <= n * m <= 0) by (nonlinear_arith)
            requires 0 <= n <= d && m < 0;
        lemma_div_is_ordered(d * m, n * m, d);
        lemma_div_multiples_vanish(m, d);
        lemma_div_is_ordered(n * m, 0, d);
        lemma_div_multiples_vanish(0, d);
        assert(d * 0 == 0) by (nonlinear_arith);
    }
}

/// The product of a bounded parameter numerator and a coordinate
/// difference stays far within 128 bits.
proof fn lemma_muldiv_bound_128(n: int, d: int, m: int)
    requires
        0 <= n <= 0x8_0000_0000_0000,
        -0x200_0000 <= m <= 0x200_0000,
    ensures
        -0x10_0000_0000_0000_0000_0000 <= n * m <= 0x10_0000_0000_0000_0000_0000,
{
    assert(-0x10_0000_0000_0000_0000_0000 <= n * m <= 0x10_0000_0000_0000_0000_0000)
        by (nonlinear_arith)
        requires 0 <= n <= 0x8_0000_0000_0000 && -0x200_0000 <= m <= 0x200_0000;
}

/// The orientation of the triplet (p, q, r), as [`orient_class`].
fn orientation(p: &Point, q: &Point, r: &Point) -> (o: i8)
    requires
        p.in_range(),
        q.in_range(),
        r.in_range(),
    ensures
        o == orient_class(*p, *q, *r),
{
    proof {
        lemma_diff_product_bound(q.y as int - p.y as int, r.x as int - q.x as int);
        lemma_diff_product_bound(q.x as int - p.x as int, r.y as int - q.y as int);
    }
    let val = (q.y - p.y) * (r.x - q.x) - (q.x - p.x) * (r.y - q.y);
    if val == 0 {
        0
    } else if val > 0 {
        1
    } else {
        2
    }
}

/// Whether `q` falls within the bounding box of `p` and `r`, as
/// [`within_box`].
fn on_segment(p: &Point, q: &Point, r: &Point) -> (b: bool)
    ensures
        b == within_box(*p, *q, *r),
{
    let max_x = if p.x >= r.x {
        p.x
    } else {
        r.x
    };
    let min_x = if p.x <= r.x {
        p.x
    } else {
        r.x
    };
    let max_y = if p.y >= r.y {
        p.y
    } else {
        r.y
    };
    let min_y = if p.y <= r.y {
        p.y
    } else {
        r.y
    };
    q.x <= max_x && q.x >= min_x && q.y <= max_y && q.y >= min_y
}

/// The product of two differences of in-range coordinates stays within
/// 2^50.
pub(crate) proof fn lemma_diff_product_bound(a: int, b: int)
    requires
        -0x200_0000 <= a <= 0x200_0000,
        -0x200_0000 <= b <= 0x200_0000,
    ensures
        -0x4_0000_0000_0000 <= a * b <= 0x4_0000_0000_0000,
{
    assert(-0x4_0000_0000_0000 <= a * b <= 0x4_0000_0000_0000) by (nonlinear_arith)
        requires -0x200_0000 <= a <= 0x200_0000 && -0x200_0000 <= b <= 0x200_0000;
}

} // verus!
