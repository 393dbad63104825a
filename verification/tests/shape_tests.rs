use canvas2d::fixed::FX_ONE;
use canvas2d::point::Point;
use canvas2d::shape::{Ellipse, Polygon, Rectangle, Shape, DIST_INFINITE};

fn px(v: i64) -> i64 {
    v * FX_ONE
}

#[test]
fn ellipse_contains_inclusive_boundary() {
    let e = Ellipse { center: Point::new(0, 0), width: px(10), height: px(10) };
    assert!(e.contains(Point::new(0, 0)));
    assert!(e.contains(Point::new(px(5), 0)));
    assert!(e.contains(Point::new(0, -px(5))));
    assert!(!e.contains(Point::new(px(10), 0)));
    assert!(!e.contains(Point::new(px(4), px(4))));
    assert!(e.contains(Point::new(px(3), px(4))));
}

#[test]
fn ellipse_degenerate_contains_nothing() {
    let e = Ellipse { center: Point::new(0, 0), width: 0, height: px(10) };
    assert!(!e.contains(Point::new(0, 0)));
}

#[test]
fn ellipse_bounding_box() {
    let e = Ellipse { center: Point::new(px(10), px(20)), width: px(4), height: px(6) };
    let (tl, br) = e.bounding_box();
    assert_eq!(tl, Point::new(px(8), px(17)));
    assert_eq!(br, Point::new(px(12), px(23)));
}

#[test]
fn ellipse_distance_sign() {
    let e = Ellipse { center: Point::new(0, 0), width: px(10), height: px(10) };
    // on the boundary the approximate distance vanishes
    assert_eq!(e.distance(Point::new(px(5), 0)), 0);
    // inside is negative, outside positive
    assert!(e.distance(Point::new(0, 0)) < 0);
    assert!(e.distance(Point::new(px(10), 0)) > 0);
    // a circle's distance is exact on the axis: 10 away minus radius 5
    assert_eq!(e.distance(Point::new(px(10), 0)), px(5));
    let degenerate = Ellipse { center: Point::new(0, 0), width: 0, height: 0 };
    assert_eq!(degenerate.distance(Point::new(px(1), 0)), DIST_INFINITE);
}

#[test]
fn rectangle_contains() {
    let r = Rectangle { top_left: Point::new(0, 0), width: px(10), height: px(10) };
    assert!(r.contains(Point::new(0, 0)));
    assert!(r.contains(Point::new(px(10), px(10))));
    assert!(r.contains(Point::new(px(5), px(5))));
    assert!(!r.contains(Point::new(px(11), px(5))));
    assert!(!r.contains(Point::new(-px(1), px(5))));
}

#[test]
fn rectangle_bounding_box() {
    let r = Rectangle { top_left: Point::new(px(1), px(2)), width: px(10), height: px(20) };
    let (tl, br) = r.bounding_box();
    assert_eq!(tl, Point::new(px(1), px(2)));
    assert_eq!(br, Point::new(px(11), px(22)));
}

#[test]
fn rectangle_distance_never_negative() {
    let r = Rectangle { top_left: Point::new(0, 0), width: px(10), height: px(10) };
    assert_eq!(r.distance(Point::new(px(5), px(5))), 0);
    assert_eq!(r.distance(Point::new(px(20), px(5))), px(10));
    assert_eq!(r.distance(Point::new(px(5), -px(3))), px(3));
    // diagonal distance from the corner: sqrt(3^2 + 4^2)
    assert_eq!(r.distance(Point::new(px(13), px(14))), px(5));
}

#[test]
fn polygon_builds_and_exposes_vertices() {
    let mut p = Polygon::new();
    assert_eq!(p.vertices().len(), 0);
    p.add_vertex(Point::new(0, 0));
    p.add_vertex(Point::new(px(4), 0));
    p.add_vertex(Point::new(0, px(4)));
    assert_eq!(p.vertices().len(), 3);
    assert_eq!(p.vertices()[1], Point::new(px(4), 0));
}

fn triangle() -> Polygon {
    let mut p = Polygon::new();
    p.add_vertex(Point::new(0, 0));
    p.add_vertex(Point::new(px(4), 0));
    p.add_vertex(Point::new(0, px(4)));
    p
}

#[test]
fn polygon_contains_even_odd() {
    let t = triangle();
    assert!(t.contains(Point::new(px(1), px(1))));
    assert!(!t.contains(Point::new(px(3), px(3))));
    assert!(!t.contains(Point::new(-px(1), px(1))));
}

#[test]
fn polygon_empty_degenerates() {
    let p = Polygon::new();
    assert!(!p.contains(Point::new(0, 0)));
    let (tl, br) = p.bounding_box();
    assert_eq!(tl, Point::new(0, 0));
    assert_eq!(br, Point::new(0, 0));
    assert_eq!(p.distance(Point::new(px(1), 0)), DIST_INFINITE);
    let mut single = Polygon::new();
    single.add_vertex(Point::new(px(1), px(1)));
    assert_eq!(single.distance(Point::new(0, 0)), DIST_INFINITE);
}

#[test]
fn polygon_bounding_box() {
    let mut p = Polygon::new();
    p.add_vertex(Point::new(px(2), px(1)));
    p.add_vertex(Point::new(-px(3), px(5)));
    p.add_vertex(Point::new(px(7), -px(2)));
    let (tl, br) = p.bounding_box();
    assert_eq!(tl, Point::new(-px(3), -px(2)));
    assert_eq!(br, Point::new(px(7), px(5)));
}

#[test]
fn polygon_distance_signed() {
    let t = triangle();
    // half a pixel inside the left edge
    assert_eq!(t.distance(Point::new(px(1), px(1))), -px(1));
    // one pixel outside the bottom edge
    assert_eq!(t.distance(Point::new(px(1), -px(1))), px(1));
}

#[test]
fn ellipse_distance_sign_matches_contains() {
    // a point a whisker outside the boundary reports a positive distance
    let e = Ellipse { center: Point::new(0, 0), width: 512, height: 512 };
    let p = Point::new(256, 1);
    assert!(!e.contains(p));
    assert_eq!(e.distance(p), 1);
    // scanning a circle: the sign of the distance always agrees with
    // containment
    let c = Ellipse { center: Point::new(0, 0), width: px(6), height: px(6) };
    for x in -8..=8i64 {
        for y in -8..=8i64 {
            let q = Point::new(x * 128, y * 128);
            assert_eq!(c.distance(q) <= 0, c.contains(q), "at ({x}, {y})");
        }
    }
}

#[test]
fn polygon_fmt_display_lists_vertices() {
    let mut p = Polygon::new();
    p.add_vertex(Point::new(px(100), px(100)));
    p.add_vertex(Point::new(-384, 64));
    assert_eq!(
        p.fmt_display(),
        "Polygon with 2 vertices:\n  Vertex 1: (100.00, 100.00)\n  Vertex 2: (-1.50, 0.25)\n"
    );
    // rounding carries into the whole pixel
    let mut q = Polygon::new();
    q.add_vertex(Point::new(255, 0));
    assert_eq!(q.fmt_display(), "Polygon with 1 vertices:\n  Vertex 1: (1.00, 0.00)\n");
    let empty = Polygon::new();
    assert_eq!(empty.fmt_display(), "Polygon with 0 vertices:\n");
}
