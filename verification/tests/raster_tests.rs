use canvas2d::canvas::Canvas;
use canvas2d::color::Color;
use canvas2d::fixed::FX_ONE;
use canvas2d::pixelbuffer::PixelBuffer;
use canvas2d::point::Point;
use canvas2d::shape::Polygon;

fn px(v: i64) -> i64 {
    v * FX_ONE
}

fn at(buf: &PixelBuffer, x: usize, y: usize) -> u32 {
    buf.get_buffer()[y * buf.width + x]
}

#[test]
fn new_buffer_is_zeroed() {
    let b = PixelBuffer::new(4, 3);
    assert_eq!(b.get_buffer().len(), 12);
    assert!(b.get_buffer().iter().all(|&p| p == 0));
}

#[test]
fn clear_overwrites_every_pixel() {
    let mut b = PixelBuffer::new(4, 3);
    let c = Color::new(1, 2, 3, 4);
    b.clear(c);
    assert!(b.get_buffer().iter().all(|&p| p == c.0));
}

#[test]
fn set_pixel_writes_in_bounds() {
    let mut b = PixelBuffer::new(4, 3);
    let c = Color::new(9, 8, 7, 6);
    b.set_pixel(2, 1, c);
    assert_eq!(at(&b, 2, 1), c.0);
    assert_eq!(at(&b, 1, 2), 0);
}

#[test]
fn out_of_bounds_writes_are_silent_no_ops() {
    let mut b = PixelBuffer::new(4, 3);
    b.clear(Color::new(1, 2, 3, 4));
    let snapshot: Vec<u32> = b.get_buffer().to_vec();
    let c = Color::new(200, 100, 50, 255);
    b.set_pixel(-1, 0, c);
    b.set_pixel(4, 0, c);
    b.set_pixel(0, -1, c);
    b.set_pixel(0, 3, c);
    b.blend_pixel(-1, 0, &c);
    b.blend_pixel(4, 0, &c);
    b.blend_pixel(0, -1, &c);
    b.blend_pixel(0, 3, &c);
    assert_eq!(b.get_buffer(), snapshot.as_slice());
}

#[test]
fn blend_pixel_composites_over() {
    let mut b = PixelBuffer::new(2, 1);
    b.clear(Color::new(100, 150, 200, 255));
    let fg = Color::new(50, 60, 70, 128);
    b.blend_pixel(0, 0, &fg);
    let out = Color(at(&b, 0, 0));
    // per channel: (bg * 127 + fg * 128) / 255, truncated
    assert_eq!((out.r(), out.g(), out.b(), out.a()), (74, 104, 134, 255));
    // the untouched pixel keeps its value
    assert_eq!(at(&b, 1, 0), Color::new(100, 150, 200, 255).0);
}

#[test]
fn blend_pixel_stores_opaque_alpha() {
    let mut b = PixelBuffer::new(2, 2);
    for a in [0u8, 1, 42, 127, 254, 255] {
        b.blend_pixel(1, 1, &Color::new(10, 20, 30, a));
        assert_eq!(Color(at(&b, 1, 1)).a(), 255);
    }
}

#[test]
fn blend_opaque_color_overwrites() {
    let mut b = PixelBuffer::new(1, 1);
    b.clear(Color::new(1, 2, 3, 255));
    b.blend_pixel(0, 0, &Color::new(200, 150, 100, 255));
    assert_eq!(at(&b, 0, 0), Color::new(200, 150, 100, 255).0);
}

#[test]
fn plot_scales_alpha_by_coverage() {
    let mut b = PixelBuffer::new(1, 1);
    b.clear(Color::new(0, 0, 0, 255));
    // half coverage of an opaque red: alpha byte 127, red (255 * 127) / 255
    b.plot(0, 0, Color::new(255, 0, 0, 255), 128);
    let out = Color(at(&b, 0, 0));
    assert_eq!((out.r(), out.g(), out.b(), out.a()), (127, 0, 0, 255));
}

#[test]
fn draw_line_walks_the_diagonal() {
    let mut b = PixelBuffer::new(5, 5);
    let c = Color::new(255, 255, 255, 255);
    b.draw_line(Point::new(0, 0), Point::new(px(4), px(4)), c);
    for x in 0..5 {
        for y in 0..5 {
            if x == y {
                assert_eq!(at(&b, x, y), c.0);
            } else {
                assert_eq!(at(&b, x, y), 0);
            }
        }
    }
}

#[test]
fn draw_line_horizontal_row() {
    let mut b = PixelBuffer::new(6, 3);
    let c = Color::new(10, 20, 30, 255);
    b.draw_line(Point::new(px(1), px(1)), Point::new(px(4), px(1)), c);
    for x in 0..6 {
        let expected = if (1..=4).contains(&x) { c.0 } else { 0 };
        assert_eq!(at(&b, x, 1), expected);
        assert_eq!(at(&b, x, 0), 0);
        assert_eq!(at(&b, x, 2), 0);
    }
}

#[test]
fn draw_line_aa_horizontal_lights_one_row() {
    let mut b = PixelBuffer::new(12, 4);
    let bg = Color::new(0, 0, 0, 255);
    b.clear(bg);
    let c = Color::new(255, 0, 0, 255);
    b.draw_line_aa(Point::new(0, 0), Point::new(px(10), 0), c);
    // endpoints carry half coverage, interior columns full coverage
    assert_eq!(at(&b, 0, 0), Color::new(127, 0, 0, 255).0);
    for x in 1..=9 {
        assert_eq!(at(&b, x, 0), Color::new(255, 0, 0, 255).0);
    }
    assert_eq!(at(&b, 10, 0), Color::new(127, 0, 0, 255).0);
    assert_eq!(at(&b, 11, 0), bg.0);
    // every other row is untouched
    for x in 0..12 {
        for y in 1..4 {
            assert_eq!(at(&b, x, y), bg.0);
        }
    }
}

#[test]
fn draw_line_aa_steep_lights_one_column() {
    let mut b = PixelBuffer::new(4, 12);
    let bg = Color::new(0, 0, 0, 255);
    b.clear(bg);
    let c = Color::new(0, 255, 0, 255);
    b.draw_line_aa(Point::new(px(1), 0), Point::new(px(1), px(10)), c);
    for y in 1..=9 {
        assert_eq!(at(&b, 1, y), Color::new(0, 255, 0, 255).0);
    }
    for y in 0..12 {
        assert_eq!(at(&b, 0, y), bg.0);
        assert_eq!(at(&b, 3, y), bg.0);
    }
}

#[test]
fn canvas_background_and_state() {
    let mut c = Canvas::new(8, 8);
    let bg = Color::new(5, 6, 7, 255);
    c.background(bg);
    assert!(c.pixel_buffer.get_buffer().iter().all(|&p| p == bg.0));
}

#[test]
fn canvas_line_without_stroke_does_nothing() {
    let mut c = Canvas::new(8, 8);
    c.background(Color::new(1, 1, 1, 255));
    let snapshot: Vec<u32> = c.pixel_buffer.get_buffer().to_vec();
    c.line(Point::new(0, 0), Point::new(px(7), px(7)));
    assert_eq!(c.pixel_buffer.get_buffer(), snapshot.as_slice());
}

#[test]
fn canvas_line_uses_stroke_color() {
    let mut c = Canvas::new(8, 8);
    c.background(Color::new(0, 0, 0, 255));
    let stroke = Color::new(0, 0, 255, 255);
    c.set_stroke(Some(stroke));
    c.line(Point::new(px(1), px(2)), Point::new(px(6), px(2)));
    assert_eq!(c.pixel_buffer.get_buffer()[2 * 8 + 3], stroke.0);
}

#[test]
fn opaque_fill_covers_interior_exactly() {
    let mut c = Canvas::new(16, 16);
    let bg = Color::new(0, 0, 0, 255);
    c.background(bg);
    let fill = Color::new(255, 0, 0, 255);
    c.set_fill(Some(fill));
    c.rectangle(Point::new(0, 0), px(10), px(10));
    // pixels whose four samples all land inside are exactly the fill color
    for x in 0..=9usize {
        for y in 0..=9usize {
            assert_eq!(c.pixel_buffer.get_buffer()[y * 16 + x], fill.0);
        }
    }
    // everything outside the bounding box is untouched
    for x in 0..16usize {
        for y in 0..16usize {
            if x > 10 || y > 10 {
                assert_eq!(c.pixel_buffer.get_buffer()[y * 16 + x], bg.0);
            }
        }
    }
}

#[test]
fn semi_transparent_fill_blends() {
    let mut c = Canvas::new(8, 8);
    c.background(Color::new(0, 0, 0, 255));
    let fill = Color::new(255, 0, 0, 128);
    c.set_fill(Some(fill));
    c.rectangle(Point::new(0, 0), px(4), px(4));
    // an interior pixel gets the halfway blend: (0 * 127 + 255 * 128) / 255
    let out = Color(c.pixel_buffer.get_buffer()[1 * 8 + 1]);
    assert_eq!((out.r(), out.g(), out.b(), out.a()), (128, 0, 0, 255));
}

#[test]
fn stroke_draws_rectangle_outline() {
    let mut c = Canvas::new(16, 16);
    let bg = Color::new(0, 0, 0, 255);
    c.background(bg);
    let stroke = Color::new(0, 255, 0, 255);
    c.set_stroke(Some(stroke));
    c.set_stroke_weight(256);
    c.rectangle(Point::new(px(3), px(3)), px(8), px(8));
    // pixels on the boundary carry the full stroke color
    assert_eq!(c.pixel_buffer.get_buffer()[3 * 16 + 3], stroke.0);
    assert_eq!(c.pixel_buffer.get_buffer()[3 * 16 + 7], stroke.0);
    assert_eq!(c.pixel_buffer.get_buffer()[11 * 16 + 11], stroke.0);
    // a rectangle's distance is zero everywhere inside (never negative),
    // so the stroke pass covers the interior too
    assert_eq!(c.pixel_buffer.get_buffer()[7 * 16 + 7], stroke.0);
    // far corners stay the background
    assert_eq!(c.pixel_buffer.get_buffer()[0], bg.0);
    assert_eq!(c.pixel_buffer.get_buffer()[15 * 16 + 15], bg.0);
}

#[test]
fn filled_ellipse_center_and_outside() {
    let mut c = Canvas::new(16, 16);
    let bg = Color::new(0, 0, 0, 255);
    c.background(bg);
    let fill = Color::new(0, 0, 255, 255);
    c.set_fill(Some(fill));
    c.ellipse(Point::new(px(8), px(8)), px(8), px(8));
    // the center pixel is fully covered
    assert_eq!(c.pixel_buffer.get_buffer()[8 * 16 + 8], fill.0);
    // a far corner is untouched
    assert_eq!(c.pixel_buffer.get_buffer()[0], bg.0);
}

#[test]
fn draw_polygon_fills_triangle() {
    let mut c = Canvas::new(16, 16);
    let bg = Color::new(0, 0, 0, 255);
    c.background(bg);
    let fill = Color::new(255, 255, 0, 255);
    c.set_fill(Some(fill));
    let mut t = Polygon::new();
    t.add_vertex(Point::new(px(2), px(2)));
    t.add_vertex(Point::new(px(12), px(2)));
    t.add_vertex(Point::new(px(2), px(12)));
    c.draw_polygon(&t);
    // a pixel deep inside the triangle is fully covered
    assert_eq!(c.pixel_buffer.get_buffer()[4 * 16 + 4], fill.0);
    // the opposite corner stays the background
    assert_eq!(c.pixel_buffer.get_buffer()[14 * 16 + 14], bg.0);
}

#[test]
fn draw_line_aa_diagonal_stays_near_the_line() {
    let mut b = PixelBuffer::new(12, 12);
    let bg = Color::new(0, 0, 0, 255);
    b.clear(bg);
    let c = Color::new(255, 255, 255, 255);
    b.draw_line_aa(Point::new(0, 0), Point::new(px(10), px(10)), c);
    // every changed pixel sits within one pixel of the diagonal
    for x in 0..12i64 {
        for y in 0..12i64 {
            let p = at(&b, x as usize, y as usize);
            if p != bg.0 {
                assert!((y - x).abs() <= 1, "pixel ({x},{y}) changed far from the line");
            }
        }
    }
    // the diagonal itself carries the full color in its interior
    for i in 1..=9usize {
        assert_eq!(at(&b, i, i), c.0);
    }
}

#[test]
fn draw_line_aa_halfpixel_line_splits_coverage() {
    let mut b = PixelBuffer::new(8, 4);
    b.clear(Color::new(0, 0, 0, 255));
    let c = Color::new(255, 0, 0, 255);
    // a horizontal line running through the middle of rows 1 and 2
    b.draw_line_aa(Point::new(px(1), px(1) + 128), Point::new(px(6), px(1) + 128), c);
    // each interior column splits its coverage evenly between the two rows
    let top = Color(at(&b, 3, 1));
    let bottom = Color(at(&b, 3, 2));
    assert_eq!(top.r(), 127);
    assert_eq!(bottom.r(), 127);
    assert_eq!(at(&b, 3, 0), Color::new(0, 0, 0, 255).0);
    assert_eq!(at(&b, 3, 3), Color::new(0, 0, 0, 255).0);
}

#[test]
fn stroke_rings_an_ellipse() {
    let mut c = Canvas::new(17, 17);
    let bg = Color::new(0, 0, 0, 255);
    c.background(bg);
    let stroke = Color::new(0, 255, 0, 255);
    c.set_stroke(Some(stroke));
    c.set_stroke_weight(256);
    c.ellipse(Point::new(px(8), px(8)), px(8), px(8));
    // a pixel on the circle carries the full stroke color
    assert_eq!(c.pixel_buffer.get_buffer()[8 * 17 + 12], stroke.0);
    assert_eq!(c.pixel_buffer.get_buffer()[4 * 17 + 8], stroke.0);
    // the center is deep inside the ring and stays the background
    assert_eq!(c.pixel_buffer.get_buffer()[8 * 17 + 8], bg.0);
    // far outside stays the background
    assert_eq!(c.pixel_buffer.get_buffer()[0], bg.0);
}

#[test]
fn draw_line_aa_same_pixels_both_directions() {
    let c = Color::new(40, 80, 120, 200);
    let mut fwd = PixelBuffer::new(10, 10);
    fwd.clear(Color::new(3, 2, 1, 255));
    fwd.draw_line_aa(Point::new(px(1) + 100, px(2)), Point::new(px(8), px(7) + 57), c);
    let mut rev = PixelBuffer::new(10, 10);
    rev.clear(Color::new(3, 2, 1, 255));
    rev.draw_line_aa(Point::new(px(8), px(7) + 57), Point::new(px(1) + 100, px(2)), c);
    assert_eq!(fwd.get_buffer(), rev.get_buffer());
}
