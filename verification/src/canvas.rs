//! The drawing context: fill and stroke state over an owned framebuffer,
//! and the two-phase anti-aliased shape pipeline — a coverage-sampled fill
//! pass and a signed-distance stroke pass.

use vstd::prelude::*;
use vstd::arithmetic::div_mod::lemma_div_is_ordered;
use crate::color::{alpha_of, blue_of, green_of, pack_rgba, red_of, Color};
use crate::fixed::{fx_ceil, fx_floor};
use crate::pixelbuffer::{blend_over, PixelBuffer, DIM_LIMIT};
use crate::point::{Point, COORD_LIMIT};
use crate::shape::{Ellipse, Polygon, Rectangle, Shape};

verus! {

/// How many of the four fixed subpixel samples of the pixel (px, py) the
/// shape contains.  The samples sit at quarter offsets into the pixel.
pub open spec fn coverage_count<S: Shape>(shape: &S, px: int, py: int) -> int {
    (if shape.spec_contains(Point { x: (px * 256 + 64) as i64, y: (py * 256 + 64) as i64 }) {
        1int
    } else {
        0int
    }) + (if shape.spec_contains(
        Point { x: (px * 256 + 192) as i64, y: (py * 256 + 64) as i64 },
    ) {
        1int
    } else {
        0int
    }) + (if shape.spec_contains(
        Point { x: (px * 256 + 64) as i64, y: (py * 256 + 192) as i64 },
    ) {
        1int
    } else {
        0int
    }) + (if shape.spec_contains(
        Point { x: (px * 256 + 192) as i64, y: (py * 256 + 192) as i64 },
    ) {
        1int
    } else {
        0int
    })
}

/// An alpha byte scaled by a coverage of so many quarters, byte-truncated.
pub open spec fn quarter_alpha(a: u8, count: int) -> u8 {
    ((a * count) / 4) as u8
}

/// What the fill pass leaves in one pixel: the fill color, its alpha
/// scaled by the sampled coverage, composited over the old value; the old
/// value untouched where no sample hits.
pub open spec fn fill_phase<S: Shape>(shape: &S, color: Color, v: u32, px: int, py: int) -> u32 {
    let c = coverage_count(shape, px, py);
    if c > 0 {
        blend_over(
            v,
            pack_rgba(
                red_of(color.0),
                green_of(color.0),
                blue_of(color.0),
                quarter_alpha(alpha_of(color.0), c),
            ),
        )
    } else {
        v
    }
}

/// Whether the pixel (px, py) lies in the fill pass's scan region: the
/// shape's bounding box, rounded outward to whole pixels.
pub open spec fn fill_box_contains<S: Shape>(shape: &S, px: int, py: int) -> bool {
    let bb = shape.spec_bounding_box();
    &&& bb.0.x / 256 <= px <= (bb.1.x + 255) / 256
    &&& bb.0.y / 256 <= py <= (bb.1.y + 255) / 256
}

/// What the whole fill pass leaves in the pixel with flat index `i`.
pub open spec fn fill_map<S: Shape>(
    shape: &S,
    color: Color,
    old_pix: Seq<u32>,
    w: int,
    i: int,
) -> u32 {
    if fill_box_contains(shape, i % w, i / w) {
        fill_phase(shape, color, old_pix[i], i % w, i / w)
    } else {
        old_pix[i]
    }
}

/// The alpha byte of the stroke's soft outer fringe, from the remaining
/// fixed-point coverage (at most one pixel), byte-truncated.
pub open spec fn fringe_alpha(v: int) -> u8 {
    ((v * 255) / 256) as u8
}

/// What the stroke pass leaves in one pixel: the stroke color at full
/// opacity within half the stroke weight of the boundary, a soft blended
/// fringe up to one pixel further out, and the old value beyond.
pub open spec fn stroke_phase<S: Shape>(
    shape: &S,
    color: Color,
    weight: i64,
    v: u32,
    px: int,
    py: int,
) -> u32 {
    let d = shape.spec_distance(Point { x: (px * 256) as i64, y: (py * 256) as i64 });
    let ad = if d >= 0 {
        d
    } else {
        -d
    };
    let half = (weight as int) / 2;
    if ad <= half {
        color.0
    } else if ad <= half + 256 {
        blend_over(
            v,
            pack_rgba(
                red_of(color.0),
                green_of(color.0),
                blue_of(color.0),
                fringe_alpha(half + 256 - ad),
            ),
        )
    } else {
        v
    }
}

/// Whether the pixel (px, py) lies in the stroke pass's scan region: the
/// shape's bounding box expanded by half the stroke weight, rounded
/// outward to whole pixels.
pub open spec fn stroke_box_contains<S: Shape>(shape: &S, weight: i64, px: int, py: int) -> bool {
    let bb = shape.spec_bounding_box();
    let half = (weight as int) / 2;
    &&& (bb.0.x - half) / 256 <= px <= (bb.1.x + half + 255) / 256
    &&& (bb.0.y - half) / 256 <= py <= (bb.1.y + half + 255) / 256
}

/// What the whole stroke pass leaves in the pixel with flat index `i`.
pub open spec fn stroke_map<S: Shape>(
    shape: &S,
    color: Color,
    weight: i64,
    old_pix: Seq<u32>,
    w: int,
    i: int,
) -> u32 {
    if stroke_box_contains(shape, weight, i % w, i / w) {
        stroke_phase(shape, color, weight, old_pix[i], i % w, i / w)
    } else {
        old_pix[i]
    }
}

/// What the whole two-phase pipeline leaves in the pixel with flat index
/// `i`: the fill pass where a fill color is set, then the stroke pass
/// where a stroke color is set.
pub open spec fn draw_shape_map<S: Shape>(
    shape: &S,
    fill: Option<Color>,
    stroke: Option<Color>,
    weight: i64,
    old_pix: Seq<u32>,
    w: int,
    i: int,
) -> u32 {
    let mid = if fill is Some {
        fill_map(shape, fill->0, old_pix, w, i)
    } else {
        old_pix[i]
    };
    if stroke is Some {
        if stroke_box_contains(shape, weight, i % w, i / w) {
            stroke_phase(shape, stroke->0, weight, mid, i % w, i / w)
        } else {
            mid
        }
    } else {
        mid
    }
}

/// A stateful drawing context: a framebuffer with optional fill and stroke
/// colors and a stroke weight, translating shape and line calls into
/// composited pixel writes.
pub struct Canvas {
    /// The width of the canvas, in pixels.
    pub width: usize,
    /// The height of the canvas, in pixels.
    pub height: usize,
    /// The owned framebuffer every draw call writes into.
    pub pixel_buffer: PixelBuffer,
    /// The fill color; `None` disables the fill pass.
    pub fill_color: Option<Color>,
    /// The stroke color; `None` disables the stroke pass.
    pub stroke_color: Option<Color>,
    /// The stroke weight, in fixed-point units (256 is one pixel).
    pub stroke_weight: i64,
}

impl Canvas {
    /// The canvas caches its buffer's dimensions and keeps a positive,
    /// bounded stroke weight.
    pub open spec fn wf(&self) -> bool {
        &&& self.pixel_buffer.wf()
        &&& self.width == self.pixel_buffer.width
        &&& self.height == self.pixel_buffer.height
        &&& 0 < self.stroke_weight <= COORD_LIMIT
    }

    /// The paint state: everything but the pixels.
    pub open spec fn same_paint(&self, other: &Canvas) -> bool {
        &&& self.width == other.width
        &&& self.height == other.height
        &&& self.fill_color == other.fill_color
        &&& self.stroke_color == other.stroke_color
        &&& self.stroke_weight == other.stroke_weight
        &&& self.pixel_buffer.width == other.pixel_buffer.width
        &&& self.pixel_buffer.height == other.pixel_buffer.height
    }

    /// Creates a canvas of the given dimensions with a zeroed buffer, no
    /// fill or stroke color, and a stroke weight of one pixel.
    pub fn new(width: usize, height: usize) -> (r: Self)
        requires
            width <= DIM_LIMIT,
            height <= DIM_LIMIT,
            width * height <= usize::MAX,
        ensures
            r.wf(),
            r.width == width,
            r.height == height,
            r.fill_color is None,
            r.stroke_color is None,
            r.stroke_weight == 256,
            forall|i: int| 0 <= i < r.pixel_buffer.pixels().len() ==> r.pixel_buffer.pixels()[i]
                == 0u32,
    {
        Canvas {
            width,
            height,
            pixel_buffer: PixelBuffer::new(width, height),
            fill_color: None,
            stroke_color: None,
            stroke_weight: 256,
        }
    }

    /// Overwrites every pixel with the given color, ignoring its alpha.
    pub fn background(&mut self, color: Color)
        requires
            old(self).wf(),
        ensures
            final(self).wf(),
            final(self).same_paint(old(self)),
            final(self).pixel_buffer.pixels().len() == old(self).pixel_buffer.pixels().len(),
            forall|i: int|
                0 <= i < final(self).pixel_buffer.pixels().len()
                    ==> final(self).pixel_buffer.pixels()[i] == color.0,
    {
        self.pixel_buffer.clear(color);
    }

    /// Sets the fill color; `None` disables filling.
    pub fn set_fill(&mut self, color: Option<Color>)
        requires
            old(self).wf(),
        ensures
            final(self).wf(),
            *final(self) == (Canvas { fill_color: color, ..*old(self) }),
    {
        self.fill_color = color;
    }

    /// Sets the stroke color; `None` disables stroking.
    pub fn set_stroke(&mut self, color: Option<Color>)
        requires
            old(self).wf(),
        ensures
            final(self).wf(),
            *final(self) == (Canvas { stroke_color: color, ..*old(self) }),
    {
        self.stroke_color = color;
    }

    /// Sets the stroke weight, in fixed-point units (256 is one pixel).
    pub fn set_stroke_weight(&mut self, weight: i64)
        requires
            old(self).wf(),
            0 < weight <= COORD_LIMIT,
        ensures
            final(self).wf(),
            *final(self) == (Canvas { stroke_weight: weight, ..*old(self) }),
    {
        self.stroke_weight = weight;
    }

    /// The fill pass: for every pixel of the shape's outward-rounded
    /// bounding box, samples four fixed subpixel offsets, and composites
    /// the fill color, with its alpha scaled by the sampled coverage, over
    /// pixels at least one sample hits.
    pub fn fill_shape_aa<S: Shape>(&mut self, shape: &S, color: Color)
        requires
            old(self).wf(),
            shape.wf(),
        ensures
            final(self).wf(),
            final(self).same_paint(old(self)),
            final(self).pixel_buffer.pixels().len() == old(self).pixel_buffer.pixels().len(),
            forall|i: int|
                0 <= i < old(self).pixel_buffer.pixels().len()
                    ==> final(self).pixel_buffer.pixels()[i] == fill_map(
                    shape,
                    color,
                    old(self).pixel_buffer.pixels(),
                    old(self).width as int,
                    i,
                ),
    {
        let bb = shape.bounding_box();
        let x1 = fx_floor(bb.0.x);
        let y1 = fx_floor(bb.0.y);
        let x2 = fx_ceil(bb.1.x);
        let y2 = fx_ceil(bb.1.y);
        let w = self.width;
        let h = self.height;
        let px_lo = if x1 < 0 {
            0
        } else {
            x1
        };
        let px_hi = if x2 >= w as i64 {
            w as i64 - 1
        } else {
            x2
        };
        let py_lo = if y1 < 0 {
            0
        } else {
            y1
        };
        let py_hi = if y2 >= h as i64 {
            h as i64 - 1
        } else {
            y2
        };
        let ghost entry = self.pixel_buffer.pixels();
        let mut px = px_lo;
        while px <= px_hi
            invariant
                self.wf(),
                self.same_paint(old(self)),
                shape.wf(),
                w == self.width,
                h == self.height,
                entry == old(self).pixel_buffer.pixels(),
                entry.len() == self.pixel_buffer.pixels().len(),
                entry.len() == w * h,
                x1 == shape.spec_bounding_box().0.x / 256,
                y1 == shape.spec_bounding_box().0.y / 256,
                x2 == (shape.spec_bounding_box().1.x + 255) / 256,
                y2 == (shape.spec_bounding_box().1.y + 255) / 256,
                px_lo == if x1 < 0 { 0i64 } else { x1 },
                px_hi == if x2 >= w as i64 { (w - 1) as i64 } else { x2 },
                py_lo == if y1 < 0 { 0i64 } else { y1 },
                py_hi == if y2 >= h as i64 { (h - 1) as i64 } else { y2 },
                px_lo <= px,
                px <= px_hi + 1 || px == px_lo,
                forall|i: int|
                    0 <= i < entry.len() ==> self.pixel_buffer.pixels()[i] == (if px_lo <= i % (
                    w as int) < px && py_lo <= i / (w as int) <= py_hi {
                        fill_phase(shape, color, entry[i], i % (w as int), i / (w as int))
                    } else {
                        entry[i]
                    }),
            decreases px_hi + 1 - px,
        {
            let mut py = py_lo;
            while py <= py_hi
                invariant
                    self.wf(),
                    self.same_paint(old(self)),
                    shape.wf(),
                    w == self.width,
                    h == self.height,
                    entry == old(self).pixel_buffer.pixels(),
                    entry.len() == self.pixel_buffer.pixels().len(),
                    entry.len() == w * h,
                    px_lo <= px <= px_hi,
                    px_hi < w,
                    py_hi < h,
                    0 <= px_lo,
                    0 <= py_lo,
                    py_lo <= py,
                    py <= py_hi + 1 || py == py_lo,
                    forall|i: int|
                        0 <= i < entry.len() ==> self.pixel_buffer.pixels()[i] == (if (px_lo <= i
                            % (w as int) < px && py_lo <= i / (w as int) <= py_hi) || (i % (
                        w as int) == px && py_lo <= i / (w as int) < py) {
                            fill_phase(shape, color, entry[i], i % (w as int), i / (w as int))
                        } else {
                            entry[i]
                        }),
                decreases py_hi + 1 - py,
            {
                let s00 = Point::new(px * 256 + 64, py * 256 + 64);
                let s10 = Point::new(px * 256 + 192, py * 256 + 64);
                let s01 = Point::new(px * 256 + 64, py * 256 + 192);
                let s11 = Point::new(px * 256 + 192, py * 256 + 192);
                let mut count: u32 = 0;
                if shape.contains(s00) {
                    count = count + 1;
                }
                if shape.contains(s10) {
                    count = count + 1;
                }
                if shape.contains(s01) {
                    count = count + 1;
                }
                if shape.contains(s11) {
                    count = count + 1;
                }
                proof {
                    assert(count == coverage_count(shape, px as int, py as int));
                }
                let ghost pre = self.pixel_buffer.pixels();
                if count > 0 {
                    let ca = color.a();
                    proof {
                        assert(ca as int * count as int <= 255 * 4) by (nonlinear_arith)
                            requires 0 <= ca as int <= 255 && count as int <= 4;
                        vstd::arithmetic::div_mod::lemma_div_pos_is_pos(
                            ca as int * count as int,
                            4,
                        );
                        lemma_div_is_ordered(ca as int * count as int, (255 * 4) as int, 4);
                    }
                    let aa = ((ca as u32 * count) / 4) as u8;
                    let aa_color = color.with_alpha(aa);
                    self.pixel_buffer.blend_pixel(px as i32, py as i32, &aa_color);
                }
                proof {
                    lemma_fill_column_step(
                        shape,
                        color,
                        entry,
                        pre,
                        self.pixel_buffer.pixels(),
                        w as int,
                        h as int,
                        px as int,
                        py as int,
                        px_lo as int,
                        py_lo as int,
                        py_hi as int,
                        count as int,
                    );
                }
                py = py + 1;
            }
            proof {
                assert forall|i: int| 0 <= i < entry.len() implies self.pixel_buffer.pixels()[i]
                    == (if px_lo <= i % (w as int) < px + 1 && py_lo <= i / (w as int) <= py_hi {
                    fill_phase(shape, color, entry[i], i % (w as int), i / (w as int))
                } else {
                    entry[i]
                }) by {
                    crate::pixelbuffer::lemma_flat_coords(i, w as int, h as int);
                }
            }
            px = px + 1;
        }
        proof {
            assert forall|i: int| 0 <= i < entry.len() implies self.pixel_buffer.pixels()[i]
                == fill_map(shape, color, entry, w as int, i) by {
                crate::pixelbuffer::lemma_flat_coords(i, w as int, h as int);
            }
        }
    }

    /// The stroke pass: for every pixel of the shape's bounding box
    /// expanded by half the stroke weight, writes the stroke color at full
    /// opacity within half the weight of the boundary, and composites a
    /// soft fringe up to one pixel further out.
    pub fn stroke_shape<S: Shape>(&mut self, shape: &S, color: Color)
        requires
            old(self).wf(),
            shape.wf(),
        ensures
            final(self).wf(),
            final(self).same_paint(old(self)),
            final(self).pixel_buffer.pixels().len() == old(self).pixel_buffer.pixels().len(),
            forall|i: int|
                0 <= i < old(self).pixel_buffer.pixels().len()
                    ==> final(self).pixel_buffer.pixels()[i] == stroke_map(
                    shape,
                    color,
                    old(self).stroke_weight,
                    old(self).pixel_buffer.pixels(),
                    old(self).width as int,
                    i,
                ),
    {
        let bb = shape.bounding_box();
        let half = crate::fixed::div_floor(self.stroke_weight, 2);
        proof {
            lemma_div_is_ordered(0, self.stroke_weight as int, 2);
            lemma_div_is_ordered(self.stroke_weight as int, COORD_LIMIT as int, 2);
        }
        let x1 = fx_floor(bb.0.x - half);
        let y1 = fx_floor(bb.0.y - half);
        let x2 = fx_ceil(bb.1.x + half);
        let y2 = fx_ceil(bb.1.y + half);
        let w = self.width;
        let h = self.height;
        let px_lo = if x1 < 0 {
            0
        } else {
            x1
        };
        let px_hi = if x2 >= w as i64 {
            w as i64 - 1
        } else {
            x2
        };
        let py_lo = if y1 < 0 {
            0
        } else {
            y1
        };
        let py_hi = if y2 >= h as i64 {
            h as i64 - 1
        } else {
            y2
        };
        let ghost entry = self.pixel_buffer.pixels();
        let ghost weight = self.stroke_weight;
        let mut px = px_lo;
        while px <= px_hi
            invariant
                self.wf(),
                self.same_paint(old(self)),
                shape.wf(),
                w == self.width,
                h == self.height,
                weight == self.stroke_weight,
                weight == old(self).stroke_weight,
                half == (weight as int) / 2,
                0 <= half <= COORD_LIMIT,
                entry == old(self).pixel_buffer.pixels(),
                entry.len() == self.pixel_buffer.pixels().len(),
                entry.len() == w * h,
                x1 == (shape.spec_bounding_box().0.x - half) / 256,
                y1 == (shape.spec_bounding_box().0.y - half) / 256,
                x2 == (shape.spec_bounding_box().1.x + half + 255) / 256,
                y2 == (shape.spec_bounding_box().1.y + half + 255) / 256,
                px_lo == if x1 < 0 { 0i64 } else { x1 },
                px_hi == if x2 >= w as i64 { (w - 1) as i64 } else { x2 },
                py_lo == if y1 < 0 { 0i64 } else { y1 },
                py_hi == if y2 >= h as i64 { (h - 1) as i64 } else { y2 },
                px_lo <= px,
                px <= px_hi + 1 || px == px_lo,
                forall|i: int|
                    0 <= i < entry.len() ==> self.pixel_buffer.pixels()[i] == (if px_lo <= i % (
                    w as int) < px && py_lo <= i / (w as int) <= py_hi {
                        stroke_phase(shape, color, weight, entry[i], i % (w as int), i / (w as int))
                    } else {
                        entry[i]
                    }),
            decreases px_hi + 1 - px,
        {
            let mut py = py_lo;
            while py <= py_hi
                invariant
                    self.wf(),
                    self.same_paint(old(self)),
                    shape.wf(),
                    w == self.width,
                    h == self.height,
                    weight == self.stroke_weight,
                    weight == old(self).stroke_weight,
                    half == (weight as int) / 2,
                    0 <= half <= COORD_LIMIT,
                    entry == old(self).pixel_buffer.pixels(),
                    entry.len() == self.pixel_buffer.pixels().len(),
                    entry.len() == w * h,
                    px_lo <= px <= px_hi,
                    px_hi < w,
                    py_hi < h,
                    0 <= px_lo,
                    0 <= py_lo,
                    py_lo <= py,
                    py <= py_hi + 1 || py == py_lo,
                    forall|i: int|
                        0 <= i < entry.len() ==> self.pixel_buffer.pixels()[i] == (if (px_lo <= i
                            % (w as int) < px && py_lo <= i / (w as int) <= py_hi) || (i % (
                        w as int) == px && py_lo <= i / (w as int) < py) {
                            stroke_phase(
                                shape,
                                color,
                                weight,
                                entry[i],
                                i % (w as int),
                                i / (w as int),
                            )
                        } else {
                            entry[i]
                        }),
                decreases py_hi + 1 - py,
            {
                let p = Point::new(px * 256, py * 256);
                let d = shape.distance(p);
                let ad = crate::fixed::abs_i64(d);
                let ghost pre = self.pixel_buffer.pixels();
                if ad <= half {
                    self.pixel_buffer.set_pixel(px as i32, py as i32, color);
                } else if ad <= half + 256 {
                    let v = half + 256 - ad;
                    proof {
                        assert(0 <= v as int * 255 <= 255 * 255) by (nonlinear_arith)
                            requires 0 <= v as int <= 255;
                        vstd::arithmetic::div_mod::lemma_div_pos_is_pos(v as int * 255, 256);
                        lemma_div_is_ordered(v as int * 255, (255 * 255) as int, 256);
                    }
                    let fa = ((v as u32 * 255) / 256) as u8;
                    let aa_color = color.with_alpha(fa);
                    self.pixel_buffer.blend_pixel(px as i32, py as i32, &aa_color);
                }
                proof {
                    lemma_stroke_column_step(
                        shape,
                        color,
                        weight,
                        entry,
                        pre,
                        self.pixel_buffer.pixels(),
                        w as int,
                        h as int,
                        px as int,
                        py as int,
                        px_lo as int,
                        py_lo as int,
                        py_hi as int,
                        ad as int,
                    );
                }
                py = py + 1;
            }
            proof {
                assert forall|i: int| 0 <= i < entry.len() implies self.pixel_buffer.pixels()[i]
                    == (if px_lo <= i % (w as int) < px + 1 && py_lo <= i / (w as int) <= py_hi {
                    stroke_phase(shape, color, weight, entry[i], i % (w as int), i / (w as int))
                } else {
                    entry[i]
                }) by {
                    crate::pixelbuffer::lemma_flat_coords(i, w as int, h as int);
                }
            }
            px = px + 1;
        }
        proof {
            assert forall|i: int| 0 <= i < entry.len() implies self.pixel_buffer.pixels()[i]
                == stroke_map(shape, color, weight, entry, w as int, i) by {
                crate::pixelbuffer::lemma_flat_coords(i, w as int, h as int);
            }
        }
    }

    /// Draws a shape through the two-phase pipeline: the fill pass when a
    /// fill color is set, then the stroke pass when a stroke color is set.
    pub fn draw_shape_aa<S: Shape>(&mut self, shape: &S)
        requires
            old(self).wf(),
            shape.wf(),
        ensures
            final(self).wf(),
            final(self).same_paint(old(self)),
            final(self).pixel_buffer.pixels().len() == old(self).pixel_buffer.pixels().len(),
            forall|i: int|
                0 <= i < old(self).pixel_buffer.pixels().len()
                    ==> final(self).pixel_buffer.pixels()[i] == draw_shape_map(
                    shape,
                    old(self).fill_color,
                    old(self).stroke_color,
                    old(self).stroke_weight,
                    old(self).pixel_buffer.pixels(),
                    old(self).width as int,
                    i,
                ),
    {
        if let Some(fill_color) = self.fill_color {
            self.fill_shape_aa(shape, fill_color);
        }
        let ghost mid = self.pixel_buffer.pixels();
        if let Some(stroke_color) = self.stroke_color {
            self.stroke_shape(shape, stroke_color);
        }
    }

    /// Draws an ellipse with the given center and full extents through the
    /// two-phase pipeline.
    pub fn ellipse(&mut self, center: Point, width: i64, height: i64)
        requires
            old(self).wf(),
            center.in_range(),
            -COORD_LIMIT <= width <= COORD_LIMIT,
            -COORD_LIMIT <= height <= COORD_LIMIT,
        ensures
            final(self).wf(),
            final(self).same_paint(old(self)),
            final(self).pixel_buffer.pixels().len() == old(self).pixel_buffer.pixels().len(),
            forall|i: int|
                0 <= i < old(self).pixel_buffer.pixels().len()
                    ==> final(self).pixel_buffer.pixels()[i] == draw_shape_map(
                    &(Ellipse { center, width, height }),
                    old(self).fill_color,
                    old(self).stroke_color,
                    old(self).stroke_weight,
                    old(self).pixel_buffer.pixels(),
                    old(self).width as int,
                    i,
                ),
    {
        let shape = Ellipse { center, width, height };
        self.draw_shape_aa(&shape);
    }

    /// Draws a rectangle with the given top-left corner and extents
    /// through the two-phase pipeline.
    pub fn rectangle(&mut self, top_left: Point, width: i64, height: i64)
        requires
            old(self).wf(),
            top_left.in_range(),
            -COORD_LIMIT <= width <= COORD_LIMIT,
            -COORD_LIMIT <= height <= COORD_LIMIT,
        ensures
            final(self).wf(),
            final(self).same_paint(old(self)),
            final(self).pixel_buffer.pixels().len() == old(self).pixel_buffer.pixels().len(),
            forall|i: int|
                0 <= i < old(self).pixel_buffer.pixels().len()
                    ==> final(self).pixel_buffer.pixels()[i] == draw_shape_map(
                    &(Rectangle { top_left, width, height }),
                    old(self).fill_color,
                    old(self).stroke_color,
                    old(self).stroke_weight,
                    old(self).pixel_buffer.pixels(),
                    old(self).width as int,
                    i,
                ),
    {
        let shape = Rectangle { top_left, width, height };
        self.draw_shape_aa(&shape);
    }

    /// Draws a polygon through the two-phase pipeline.
    pub fn draw_polygon(&mut self, polygon: &Polygon)
        requires
            old(self).wf(),
            polygon.wf(),
        ensures
            final(self).wf(),
            final(self).same_paint(old(self)),
            final(self).pixel_buffer.pixels().len() == old(self).pixel_buffer.pixels().len(),
            forall|i: int|
                0 <= i < old(self).pixel_buffer.pixels().len()
                    ==> final(self).pixel_buffer.pixels()[i] == draw_shape_map(
                    polygon,
                    old(self).fill_color,
                    old(self).stroke_color,
                    old(self).stroke_weight,
                    old(self).pixel_buffer.pixels(),
                    old(self).width as int,
                    i,
                ),
    {
        self.draw_shape_aa(polygon);
    }

    /// Draws an anti-aliased line in the stroke color, with exactly the
    /// effect of [`PixelBuffer::draw_line_aa`] on the owned buffer; the
    /// stroke weight does not apply to plain lines.  Without a stroke
    /// color nothing changes.
    pub fn line(&mut self, start: Point, end: Point)
        requires
            old(self).wf(),
            start.in_range(),
            end.in_range(),
        ensures
            final(self).wf(),
            final(self).same_paint(old(self)),
            old(self).stroke_color is None ==> *final(self) == *old(self),
            old(self).stroke_color is Some ==> crate::pixelbuffer::frame_outside_region(
                old(self).pixel_buffer.pixels(),
                final(self).pixel_buffer.pixels(),
                old(self).width as int,
                crate::pixelbuffer::wu_steep(start, end),
                crate::pixelbuffer::wu_major_lo(start, end),
                crate::pixelbuffer::wu_major_hi(start, end),
                crate::pixelbuffer::wu_minor_lo(start, end),
                crate::pixelbuffer::wu_minor_hi(start, end),
            ),
            old(self).stroke_color is Some ==> crate::pixelbuffer::changed_only_opaque(
                old(self).pixel_buffer.pixels(),
                final(self).pixel_buffer.pixels(),
            ),
            old(self).stroke_color is Some ==> final(self).pixel_buffer.pixels()
                == crate::pixelbuffer::apply_plots(
                old(self).pixel_buffer.pixels(),
                old(self).width as int,
                old(self).height as int,
                crate::pixelbuffer::wu_plots(start, end),
                old(self).stroke_color->0,
            ),
    {
        if let Some(stroke_color) = self.stroke_color {
            self.pixel_buffer.draw_line_aa(start, end, stroke_color);
        }
    }
}

/// Filling with a fully opaque color overwrites every fully covered pixel
/// with exactly the fill color (stored with alpha 255), whatever the
/// pixel held before.
pub proof fn lemma_fill_full_coverage<S: Shape>(
    shape: &S,
    color: Color,
    v: u32,
    px: int,
    py: int,
)
    requires
        coverage_count(shape, px, py) == 4,
        alpha_of(color.0) == 255,
    ensures
        fill_phase(shape, color, v, px, py) == pack_rgba(
            red_of(color.0),
            green_of(color.0),
            blue_of(color.0),
            255,
        ),
{
    assert(quarter_alpha(255, 4) == 255) by {
        vstd::arithmetic::div_mod::lemma_div_by_multiple(255, 4);
        assert(255 * 4 == (255int) * 4) by (nonlinear_arith);
    }
    let fg = pack_rgba(
        red_of(color.0),
        green_of(color.0),
        blue_of(color.0),
        quarter_alpha(alpha_of(color.0), 4),
    );
    crate::color::lemma_pack_roundtrip(
        red_of(color.0),
        green_of(color.0),
        blue_of(color.0),
        255,
    );
    crate::pixelbuffer::lemma_blend_opaque(v, fg);
}

/// Handling one pixel of a stroke column advances the processed region by
/// one row: the pixel's new value is the stroke phase of its entry value.
proof fn lemma_stroke_column_step<S: Shape>(
    shape: &S,
    color: Color,
    weight: i64,
    entry: Seq<u32>,
    pre: Seq<u32>,
    post: Seq<u32>,
    w: int,
    h: int,
    px: int,
    py: int,
    px_lo: int,
    py_lo: int,
    py_hi: int,
    ad: int,
)
    requires
        0 < w,
        entry.len() == w * h,
        pre.len() == entry.len(),
        0 <= px < w,
        0 <= py < h,
        ({
            let d = shape.spec_distance(
                Point { x: (px * 256) as i64, y: (py * 256) as i64 },
            );
            ad == if d >= 0 { d } else { -d }
        }),
        ad <= (weight as int) / 2 ==> post == pre.update(py * w + px, color.0),
        (weight as int) / 2 < ad <= (weight as int) / 2 + 256 ==> post == pre.update(
            py * w + px,
            blend_over(
                pre[py * w + px],
                pack_rgba(
                    red_of(color.0),
                    green_of(color.0),
                    blue_of(color.0),
                    fringe_alpha((weight as int) / 2 + 256 - ad),
                ),
            ),
        ),
        ad > (weight as int) / 2 + 256 ==> post == pre,
        py_lo <= py <= py_hi,
        forall|i: int|
            0 <= i < entry.len() ==> pre[i] == (if (px_lo <= i % w < px && py_lo <= i / w
                <= py_hi) || (i % w == px && py_lo <= i / w < py) {
                stroke_phase(shape, color, weight, entry[i], i % w, i / w)
            } else {
                entry[i]
            }),
    ensures
        post.len() == entry.len(),
        forall|i: int|
            0 <= i < entry.len() ==> post[i] == (if (px_lo <= i % w < px && py_lo <= i / w
                <= py_hi) || (i % w == px && py_lo <= i / w < py + 1) {
                stroke_phase(shape, color, weight, entry[i], i % w, i / w)
            } else {
                entry[i]
            }),
{
    crate::pixelbuffer::lemma_index_in_bounds(px, py, w, h);
    crate::pixelbuffer::lemma_index_decompose(px, py, w);
    let idx = py * w + px;
    assert forall|i: int|
        0 <= i < entry.len() implies post[i] == (if (px_lo <= i % w < px && py_lo <= i / w
        <= py_hi) || (i % w == px && py_lo <= i / w < py + 1) {
        stroke_phase(shape, color, weight, entry[i], i % w, i / w)
    } else {
        entry[i]
    }) by {
        crate::pixelbuffer::lemma_flat_coords(i, w, h);
        if i == idx {
            assert(pre[i] == entry[i]);
        } else {
            assert(post[i] == pre[i]);
            if i % w == px && i / w == py {
                vstd::arithmetic::div_mod::lemma_fundamental_div_mod(i, w);
                assert(w * (i / w) == (i / w) * w) by (nonlinear_arith);
                assert(i == idx);
            }
        }
    }
}

/// Handling one pixel of a fill column advances the processed region by
/// one row: the pixel's new value is the fill phase of its entry value.
proof fn lemma_fill_column_step<S: Shape>(
    shape: &S,
    color: Color,
    entry: Seq<u32>,
    pre: Seq<u32>,
    post: Seq<u32>,
    w: int,
    h: int,
    px: int,
    py: int,
    px_lo: int,
    py_lo: int,
    py_hi: int,
    count: int,
)
    requires
        0 < w,
        entry.len() == w * h,
        pre.len() == entry.len(),
        0 <= px < w,
        0 <= py < h,
        count == coverage_count(shape, px, py),
        count > 0 ==> post == pre.update(
            py * w + px,
            blend_over(
                pre[py * w + px],
                pack_rgba(
                    red_of(color.0),
                    green_of(color.0),
                    blue_of(color.0),
                    quarter_alpha(alpha_of(color.0), count),
                ),
            ),
        ),
        count <= 0 ==> post == pre,
        py_lo <= py <= py_hi,
        forall|i: int|
            0 <= i < entry.len() ==> pre[i] == (if (px_lo <= i % w < px && py_lo <= i / w
                <= py_hi) || (i % w == px && py_lo <= i / w < py) {
                fill_phase(shape, color, entry[i], i % w, i / w)
            } else {
                entry[i]
            }),
    ensures
        post.len() == entry.len(),
        forall|i: int|
            0 <= i < entry.len() ==> post[i] == (if (px_lo <= i % w < px && py_lo <= i / w
                <= py_hi) || (i % w == px && py_lo <= i / w < py + 1) {
                fill_phase(shape, color, entry[i], i % w, i / w)
            } else {
                entry[i]
            }),
{
    crate::pixelbuffer::lemma_index_in_bounds(px, py, w, h);
    crate::pixelbuffer::lemma_index_decompose(px, py, w);
    let idx = py * w + px;
    assert forall|i: int|
        0 <= i < entry.len() implies post[i] == (if (px_lo <= i % w < px && py_lo <= i / w
        <= py_hi) || (i % w == px && py_lo <= i / w < py + 1) {
        fill_phase(shape, color, entry[i], i % w, i / w)
    } else {
        entry[i]
    }) by {
        crate::pixelbuffer::lemma_flat_coords(i, w, h);
        if i == idx {
            assert(pre[i] == entry[i]);
        } else {
            assert(post[i] == pre[i]);
            if i % w == px && i / w == py {
                vstd::arithmetic::div_mod::lemma_fundamental_div_mod(i, w);
                assert(w * (i / w) == (i / w) * w) by (nonlinear_arith);
                assert(i == idx);
            }
        }
    }
}

} // verus!
