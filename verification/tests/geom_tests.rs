use canvas2d::fixed::FX_ONE;
use canvas2d::line::Line;
use canvas2d::point::{distance, Point};
use canvas2d::rect::Rect;

fn px(v: i64) -> i64 {
    v * FX_ONE
}

#[test]
fn point_arithmetic() {
    let a = Point::new(px(1), px(2));
    let b = Point::new(px(3), px(4));
    assert_eq!(a.add(b), Point::new(px(4), px(6)));
    assert_eq!(b.sub(a), Point::new(px(2), px(2)));
    // scaling by two (512 fixed units) doubles each coordinate
    assert_eq!(a.mul(512), Point::new(px(2), px(4)));
}

#[test]
fn point_length_and_distance() {
    let p = Point::new(px(3), px(4));
    assert_eq!(p.length(), px(5));
    let o = Point::new(0, 0);
    assert_eq!(o.distance(&p), px(5));
    assert_eq!(distance(0, 0, px(3), px(4)), px(5));
    assert_eq!(distance(px(1), px(1), px(1), px(1)), 0);
}

#[test]
fn point_normalize() {
    let p = Point::new(px(3), px(4));
    let n = p.normalize();
    // 3/5 and 4/5 of a pixel, rounded down to fixed-point units
    assert_eq!(n, Point::new(153, 204));
    let z = Point::new(0, 0);
    assert_eq!(z.normalize(), z);
}

#[test]
fn point_abs_perpendicular_dot() {
    let p = Point::new(-px(3), px(4));
    assert_eq!(p.abs(), Point::new(px(3), px(4)));
    let q = Point::new(px(3), px(4));
    assert_eq!(q.perpendicular(), Point::new(-px(4), px(3)));
    let a = Point::new(px(1), px(2));
    let b = Point::new(px(3), px(4));
    // raw product sum: (256 * 768) + (512 * 1024)
    assert_eq!(a.dot(&b), 256 * 768 + 512 * 1024);
}

#[test]
fn line_length_midpoint_slope() {
    let l = Line::new(Point::new(0, 0), Point::new(px(3), px(4)));
    assert_eq!(l.length(), px(5));
    let l2 = Line::new(Point::new(0, 0), Point::new(px(4), px(4)));
    assert_eq!(l2.midpoint(), Point::new(px(2), px(2)));
    assert_eq!(l2.slope(), Some(256));
    let vertical = Line::new(Point::new(0, 0), Point::new(0, px(4)));
    assert_eq!(vertical.slope(), None);
    let down = Line::new(Point::new(0, 0), Point::new(px(2), -px(4)));
    assert_eq!(down.slope(), Some(-512));
}

#[test]
fn line_intersects() {
    let l1 = Line::new(Point::new(0, 0), Point::new(px(4), px(4)));
    let l2 = Line::new(Point::new(0, px(4)), Point::new(px(4), 0));
    let l3 = Line::new(Point::new(px(5), px(5)), Point::new(px(6), px(6)));
    assert!(l1.intersects(&l2));
    assert!(!l1.intersects(&l3));
    // touching at an endpoint counts
    let l4 = Line::new(Point::new(px(4), px(4)), Point::new(px(8), 0));
    assert!(l1.intersects(&l4));
}

#[test]
fn line_intersection_point() {
    let l1 = Line::new(Point::new(0, 0), Point::new(px(4), px(4)));
    let l2 = Line::new(Point::new(0, px(4)), Point::new(px(4), 0));
    assert_eq!(l1.intersection_point(&l2), Some(Point::new(px(2), px(2))));
    // parallel segments yield nothing
    let l3 = Line::new(Point::new(0, px(1)), Point::new(px(4), px(5)));
    assert_eq!(l1.intersection_point(&l3), None);
    // disjoint segments yield nothing
    let l4 = Line::new(Point::new(px(5), px(5)), Point::new(px(6), px(6)));
    assert_eq!(l1.intersection_point(&l4), None);
}

#[test]
fn line_closest_point_and_distance() {
    let l = Line::new(Point::new(0, 0), Point::new(px(4), px(4)));
    let p = Point::new(0, px(4));
    assert_eq!(l.closest_point(&p), Point::new(px(2), px(2)));
    // clamped to the endpoints beyond the segment
    assert_eq!(l.closest_point(&Point::new(-px(2), -px(3))), Point::new(0, 0));
    assert_eq!(l.closest_point(&Point::new(px(9), px(9))), Point::new(px(4), px(4)));
    // distance from (0,4) to the diagonal: sqrt(2^2 + 2^2) rounded down
    assert_eq!(l.distance_to_point(&p), 724);
    let horizontal = Line::new(Point::new(0, 0), Point::new(px(10), 0));
    assert_eq!(horizontal.distance_to_point(&Point::new(px(3), px(2))), px(2));
}

#[test]
fn rect_extents() {
    let r = Rect::new(Point::new(0, 0), Point::new(px(5), px(5)));
    assert_eq!(r.width(), px(5));
    assert_eq!(r.height(), px(5));
    // 25 square pixels, in fixed-point units
    assert_eq!(r.area(), 25 * FX_ONE);
    assert_eq!(r.center(), Point::new(px(2) + 128, px(2) + 128));
}

#[test]
fn rect_from_points_orders_corners() {
    let r = Rect::from_points(Point::new(px(5), px(5)), Point::new(0, 0));
    assert_eq!(r.min, Point::new(0, 0));
    assert_eq!(r.max, Point::new(px(5), px(5)));
}

#[test]
fn rect_contains_and_intersects() {
    let r = Rect::new(Point::new(0, 0), Point::new(px(5), px(5)));
    assert!(r.contains_point(&Point::new(px(2), px(2))));
    assert!(r.contains_point(&Point::new(px(5), px(5))));
    assert!(!r.contains_point(&Point::new(px(6), px(6))));
    let r2 = Rect::new(Point::new(px(3), px(3)), Point::new(px(8), px(8)));
    let r3 = Rect::new(Point::new(px(6), px(6)), Point::new(px(9), px(9)));
    assert!(r.intersects(&r2));
    assert!(!r.intersects(&r3));
}

#[test]
fn rect_union_intersection() {
    let r1 = Rect::new(Point::new(0, 0), Point::new(px(5), px(5)));
    let r2 = Rect::new(Point::new(px(3), px(3)), Point::new(px(8), px(8)));
    let u = r1.union(&r2);
    assert_eq!(u, Rect::new(Point::new(0, 0), Point::new(px(8), px(8))));
    let i = r1.intersection(&r2).unwrap();
    assert_eq!(i, Rect::new(Point::new(px(3), px(3)), Point::new(px(5), px(5))));
    let r3 = Rect::new(Point::new(px(6), px(6)), Point::new(px(9), px(9)));
    assert_eq!(r1.intersection(&r3), None);
}

#[test]
fn rect_translate_scale() {
    let r = Rect::new(Point::new(0, 0), Point::new(px(5), px(5)));
    let t = r.translate(Point::new(px(1), px(1)));
    assert_eq!(t, Rect::new(Point::new(px(1), px(1)), Point::new(px(6), px(6))));
    let r2 = Rect::new(Point::new(0, 0), Point::new(px(4), px(4)));
    let s = r2.scale(512);
    assert_eq!(s, Rect::new(Point::new(-px(2), -px(2)), Point::new(px(6), px(6))));
}

#[test]
fn line_intersects_collinear_overlap() {
    let l1 = Line::new(Point::new(0, 0), Point::new(px(4), 0));
    let l2 = Line::new(Point::new(px(2), 0), Point::new(px(8), 0));
    assert!(l1.intersects(&l2));
    // collinear but disjoint
    let l3 = Line::new(Point::new(px(5), 0), Point::new(px(8), 0));
    assert!(!l1.intersects(&l3));
    // collinear overlap is parallel, so no single crossing point
    assert_eq!(l1.intersection_point(&l2), None);
}

#[test]
fn closest_point_degenerate_segment() {
    let l = Line::new(Point::new(px(2), px(2)), Point::new(px(2), px(2)));
    assert_eq!(l.closest_point(&Point::new(px(5), px(2))), Point::new(px(2), px(2)));
    assert_eq!(l.distance_to_point(&Point::new(px(5), px(2))), px(3));
}
