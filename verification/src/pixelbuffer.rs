//! The framebuffer: a row-major array of packed pixels with total,
//! bounds-clipped writes, alpha-"over" compositing, and line rasterization
//! (Bresenham and Wu's anti-aliased algorithm).

use vstd::prelude::*;
use vstd::arithmetic::div_mod::lemma_div_is_ordered;
use crate::color::{alpha_of, blue_of, green_of, pack_rgba, red_of, Color};
use crate::fixed::lemma_mul_bound;
use crate::point::Point;

verus! {

/// One channel of the alpha-"over" composite: background weighted by the
/// inverse alpha plus foreground weighted by the alpha, byte-truncated.
pub open spec fn blend_channel(bg: u8, fg: u8, a: u8) -> u8 {
    ((bg * (255 - a) + fg * a) / 255) as u8
}

/// The composite of a foreground color over a stored pixel: every channel
/// blended by the foreground's alpha, and the stored alpha forced to 255 —
/// the buffer never retains partial transparency.
pub open spec fn blend_over(bg: u32, fg: u32) -> u32 {
    let a = alpha_of(fg);
    pack_rgba(
        blend_channel(red_of(bg), red_of(fg), a),
        blend_channel(green_of(bg), green_of(fg), a),
        blend_channel(blue_of(bg), blue_of(fg), a),
        255,
    )
}

/// The alpha byte of a color scaled by a coverage weight (256 standing for
/// full coverage), byte-truncated.
pub open spec fn scaled_alpha(a: u8, coverage: int) -> u8 {
    ((a * coverage) / 256) as u8
}

/// Whether the pixel (x, y) falls inside a buffer of the given dimensions.
pub open spec fn pix_in_bounds(w: int, h: int, x: int, y: int) -> bool {
    0 <= x < w && 0 <= y < h
}

/// After any composite the stored alpha byte is 255, whatever alpha was
/// blended in.
pub proof fn lemma_blend_alpha_opaque(bg: u32, fg: u32)
    ensures
        alpha_of(blend_over(bg, fg)) == 255,
{
    let a = alpha_of(fg);
    crate::color::lemma_pack_roundtrip(
        blend_channel(red_of(bg), red_of(fg), a),
        blend_channel(green_of(bg), green_of(fg), a),
        blend_channel(blue_of(bg), blue_of(fg), a),
        255,
    );
}

/// Compositing a fully opaque color overwrites every channel with the
/// foreground's, and stores alpha 255.
pub proof fn lemma_blend_opaque(bg: u32, fg: u32)
    requires
        alpha_of(fg) == 255,
    ensures
        blend_over(bg, fg) == pack_rgba(red_of(fg), green_of(fg), blue_of(fg), 255),
{
    lemma_blend_channel_opaque(red_of(bg), red_of(fg));
    lemma_blend_channel_opaque(green_of(bg), green_of(fg));
    lemma_blend_channel_opaque(blue_of(bg), blue_of(fg));
}

/// Blending a channel at full alpha yields the foreground channel.
proof fn lemma_blend_channel_opaque(bg: u8, fg: u8)
    ensures
        blend_channel(bg, fg, 255) == fg,
{
    assert(bg * (255 - 255) == 0) by (nonlinear_arith);
    vstd::arithmetic::div_mod::lemma_div_by_multiple(fg as int, 255);
    assert(fg * 255 == (fg as int) * 255) by (nonlinear_arith);
}

/// Blending a channel at zero alpha leaves the background channel.
pub proof fn lemma_blend_channel_transparent(bg: u8, fg: u8)
    ensures
        blend_channel(bg, fg, 0) == bg,
{
    vstd::arithmetic::div_mod::lemma_div_by_multiple(bg as int, 255);
    assert(fg * 0 == 0) by (nonlinear_arith);
    assert(bg * (255 - 0) == (bg as int) * 255) by (nonlinear_arith);
}

/// A blended channel stays a byte: the weighted sum of two bytes over a
/// full weight of 255 is at most 255.
proof fn lemma_blend_channel_bound(bg: int, fg: int, a: int)
    requires
        0 <= bg <= 255,
        0 <= fg <= 255,
        0 <= a <= 255,
    ensures
        0 <= (bg * (255 - a) + fg * a) / 255 <= 255,
{
    assert(0 <= bg * (255 - a) + fg * a <= 255 * 255) by (nonlinear_arith)
        requires 0 <= bg <= 255 && 0 <= fg <= 255 && 0 <= a <= 255;
    vstd::arithmetic::div_mod::lemma_div_pos_is_pos(bg * (255 - a) + fg * a, 255);
    lemma_div_is_ordered(bg * (255 - a) + fg * a, (255 * 255) as int, 255);
}

/// One blended channel, as [`blend_channel`].
fn blend_channel_exec(bg: u8, fg: u8, a: u8) -> (r: u8)
    ensures
        r == blend_channel(bg, fg, a),
{
    proof {
        lemma_blend_channel_bound(bg as int, fg as int, a as int);
    }
    ((bg as u32 * (255 - a as u32) + fg as u32 * a as u32) / 255) as u8
}

/// A framebuffer: a row-major flat array of packed pixels, one 32-bit
/// value per pixel, indexed by `y * width + x`.
pub struct PixelBuffer {
    /// The width of the buffer, in pixels.
    pub width: usize,
    /// The height of the buffer, in pixels.
    pub height: usize,
    /// The stored pixels, row by row.
    pub buffer: Vec<u32>,
}

/// The largest buffer extent along either axis, in pixels.
pub const DIM_LIMIT: usize = 0x10000;

impl PixelBuffer {
    /// The stored pixels, row by row.
    pub open spec fn pixels(&self) -> Seq<u32> {
        self.buffer@
    }

    /// The buffer holds exactly width times height pixels, with both
    /// extents within [`DIM_LIMIT`].
    pub open spec fn wf(&self) -> bool {
        &&& self.pixels().len() == self.width * self.height
        &&& self.width * self.height <= usize::MAX
        &&& self.width <= DIM_LIMIT
        &&& self.height <= DIM_LIMIT
    }

    /// Allocates a buffer of the given dimensions, all pixels zero.
    pub fn new(width: usize, height: usize) -> (r: Self)
        requires
            width <= DIM_LIMIT,
            height <= DIM_LIMIT,
            width * height <= usize::MAX,
        ensures
            r.wf(),
            r.width == width,
            r.height == height,
            r.pixels().len() == width * height,
            forall|i: int| 0 <= i < r.pixels().len() ==> r.pixels()[i] == 0u32,
    {
        PixelBuffer { width, height, buffer: vec![0u32; width * height] }
    }

    /// The backing array, for the host to copy to a display surface.
    pub fn get_buffer(&self) -> (r: &[u32])
        ensures
            r@ == self.pixels(),
    {
        self.buffer.as_slice()
    }

    /// Overwrites every pixel with the given color, with no blending.
    pub fn clear(&mut self, color: Color)
        requires
            old(self).wf(),
        ensures
            final(self).wf(),
            final(self).width == old(self).width,
            final(self).height == old(self).height,
            final(self).pixels().len() == old(self).pixels().len(),
            forall|i: int| 0 <= i < final(self).pixels().len() ==> final(self).pixels()[i]
                == color.0,
    {
        let n = self.buffer.len();
        let mut i: usize = 0;
        while i < n
            invariant
                n == self.buffer.len(),
                self.wf(),
                self.width == old(self).width,
                self.height == old(self).height,
                0 <= i <= n,
                forall|j: int| 0 <= j < i ==> self.buffer@[j] == color.0,
            decreases n - i,
        {
            self.buffer[i] = color.0;
            i = i + 1;
        }
    }

    /// Overwrites the pixel at (x, y); a silent no-op when the coordinates
    /// fall outside the buffer.
    pub fn set_pixel(&mut self, x: i32, y: i32, color: Color)
        requires
            old(self).wf(),
        ensures
            final(self).wf(),
            final(self).width == old(self).width,
            final(self).height == old(self).height,
            pix_in_bounds(old(self).width as int, old(self).height as int, x as int, y as int)
                ==> final(self).pixels() == old(self).pixels().update(
                y * old(self).width + x,
                color.0,
            ),
            !pix_in_bounds(old(self).width as int, old(self).height as int, x as int, y as int)
                ==> *final(self) == *old(self),
    {
        if x >= 0 && x < self.width as i32 && y >= 0 && y < self.height as i32 {
            proof {
                lemma_index_in_bounds(
                    x as int,
                    y as int,
                    self.width as int,
                    self.height as int,
                );
            }
            let index = y as usize * self.width + x as usize;
            self.buffer[index] = color.0;
        }
    }

    /// Composites the color over the pixel at (x, y) with the "over"
    /// operator; a silent no-op when the coordinates fall outside the
    /// buffer.
    pub fn blend_pixel(&mut self, x: i32, y: i32, color: &Color)
        requires
            old(self).wf(),
        ensures
            final(self).wf(),
            final(self).width == old(self).width,
            final(self).height == old(self).height,
            pix_in_bounds(old(self).width as int, old(self).height as int, x as int, y as int)
                ==> final(self).pixels() == old(self).pixels().update(
                y * old(self).width + x,
                blend_over(old(self).pixels()[y * old(self).width + x], color.0),
            ),
            !pix_in_bounds(old(self).width as int, old(self).height as int, x as int, y as int)
                ==> *final(self) == *old(self),
    {
        if x >= 0 && x < self.width as i32 && y >= 0 && y < self.height as i32 {
            proof {
                lemma_index_in_bounds(
                    x as int,
                    y as int,
                    self.width as int,
                    self.height as int,
                );
            }
            let index = y as usize * self.width + x as usize;
            let bg = Color(self.buffer[index]);
            let a = color.a();
            let new_r = blend_channel_exec(bg.r(), color.r(), a);
            let new_g = blend_channel_exec(bg.g(), color.g(), a);
            let new_b = blend_channel_exec(bg.b(), color.b(), a);
            self.buffer[index] = Color::new(new_r, new_g, new_b, 255).0;
        }
    }

    /// Composites the color with its alpha scaled by a coverage weight
    /// (256 standing for full coverage); a silent no-op out of bounds.
    pub fn plot(&mut self, x: i32, y: i32, color: Color, coverage: u32)
        requires
            old(self).wf(),
            coverage <= 256,
        ensures
            final(self).wf(),
            final(self).width == old(self).width,
            final(self).height == old(self).height,
            pix_in_bounds(old(self).width as int, old(self).height as int, x as int, y as int)
                ==> final(self).pixels() == old(self).pixels().update(
                y * old(self).width + x,
                blend_over(
                    old(self).pixels()[y * old(self).width + x],
                    pack_rgba(
                        red_of(color.0),
                        green_of(color.0),
                        blue_of(color.0),
                        scaled_alpha(alpha_of(color.0), coverage as int),
                    ),
                ),
            ),
            !pix_in_bounds(old(self).width as int, old(self).height as int, x as int, y as int)
                ==> *final(self) == *old(self),
    {
        proof {
            lemma_scaled_alpha_bound(alpha_of(color.0) as int, coverage as int);
        }
        let aa = ((color.a() as u32 * coverage) / 256) as u8;
        let aa_color = color.with_alpha(aa);
        self.blend_pixel(x, y, &aa_color);
    }
}

/// Whether every in-bounds pixel outside the closed box
/// [x_lo, x_hi] x [y_lo, y_hi] holds the same value in both buffer states.
/// A flat index `i` addresses the pixel (i % w, i / w).
pub open spec fn frame_outside_box(
    old_pix: Seq<u32>,
    new_pix: Seq<u32>,
    w: int,
    x_lo: int,
    x_hi: int,
    y_lo: int,
    y_hi: int,
) -> bool {
    &&& new_pix.len() == old_pix.len()
    &&& forall|i: int|
        0 <= i < old_pix.len() && !(x_lo <= i % w <= x_hi && y_lo <= i / w <= y_hi)
            ==> #[trigger] new_pix[i] == old_pix[i]
}

/// Every pixel either kept its old value or holds the given one.
pub open spec fn changed_only_to(old_pix: Seq<u32>, new_pix: Seq<u32>, v: u32) -> bool {
    &&& new_pix.len() == old_pix.len()
    &&& forall|i: int| 0 <= i < old_pix.len() ==> #[trigger] new_pix[i] == old_pix[i]
        || new_pix[i] == v
}

/// A row-major index decomposes back into its coordinates.
pub(crate) proof fn lemma_index_decompose(x: int, y: int, w: int)
    requires
        0 <= x < w,
        0 <= y,
    ensures
        (y * w + x) / w == y,
        (y * w + x) % w == x,
{
    vstd::arithmetic::div_mod::lemma_fundamental_div_mod_converse_div(y * w + x, w, y, x);
    vstd::arithmetic::div_mod::lemma_fundamental_div_mod_converse_mod(y * w + x, w, y, x);
}

impl PixelBuffer {
    /// Draws a single-pixel-width line from `start` to `end` by integer
    /// Bresenham stepping, without anti-aliasing.  The endpoints are taken
    /// at the pixels their coordinates fall in.  The written pixels are
    /// exactly the in-bounds pixels of [`bresenham_points`]: each holds the
    /// line color afterwards, and every other pixel keeps its value.
    pub fn draw_line(&mut self, start: Point, end: Point, color: Color)
        requires
            old(self).wf(),
            start.in_range(),
            end.in_range(),
        ensures
            final(self).wf(),
            final(self).width == old(self).width,
            final(self).height == old(self).height,
            frame_outside_box(
                old(self).pixels(),
                final(self).pixels(),
                old(self).width as int,
                if start.x / 256 <= end.x / 256 { start.x / 256 } else { end.x / 256 },
                if start.x / 256 >= end.x / 256 { start.x / 256 } else { end.x / 256 },
                if start.y / 256 <= end.y / 256 { start.y / 256 } else { end.y / 256 },
                if start.y / 256 >= end.y / 256 { start.y / 256 } else { end.y / 256 },
            ),
            changed_only_to(old(self).pixels(), final(self).pixels(), color.0),
            pix_in_bounds(
                old(self).width as int,
                old(self).height as int,
                start.x / 256,
                start.y / 256,
            ) ==> final(self).pixels()[(start.y / 256) * old(self).width + start.x / 256]
                == color.0,
            pix_in_bounds(
                old(self).width as int,
                old(self).height as int,
                end.x / 256,
                end.y / 256,
            ) ==> final(self).pixels()[(end.y / 256) * old(self).width + end.x / 256] == color.0,
            forall|k: int|
                0 <= k < bresenham_points(start, end).len() && pix_in_bounds(
                    old(self).width as int,
                    old(self).height as int,
                    (#[trigger] bresenham_points(start, end)[k]).0,
                    bresenham_points(start, end)[k].1,
                ) ==> final(self).pixels()[bresenham_points(start, end)[k].1 * old(self).width
                    + bresenham_points(start, end)[k].0] == color.0,
            forall|i: int|
                0 <= i < old(self).pixels().len() ==> final(self).pixels()[i] == old(
                    self,
                ).pixels()[i] || exists|k: int|
                    0 <= k < bresenham_points(start, end).len() && (#[trigger] bresenham_points(
                        start,
                        end,
                    )[k]).0 == i % (old(self).width as int) && bresenham_points(start, end)[k].1
                        == i / (old(self).width as int),
    {
        proof {
            lemma_div_is_ordered(-0x100_0000, start.x as int, 256);
            lemma_div_is_ordered(start.x as int, 0x100_0000, 256);
            lemma_div_is_ordered(-0x100_0000, start.y as int, 256);
            lemma_div_is_ordered(start.y as int, 0x100_0000, 256);
            lemma_div_is_ordered(-0x100_0000, end.x as int, 256);
            lemma_div_is_ordered(end.x as int, 0x100_0000, 256);
            lemma_div_is_ordered(-0x100_0000, end.y as int, 256);
            lemma_div_is_ordered(end.y as int, 0x100_0000, 256);
        }
        let start_x = crate::fixed::fx_floor(start.x);
        let start_y = crate::fixed::fx_floor(start.y);
        let end_x = crate::fixed::fx_floor(end.x);
        let end_y = crate::fixed::fx_floor(end.y);
        let dx = crate::fixed::abs_i64(end_x - start_x);
        let dy = crate::fixed::abs_i64(end_y - start_y);
        let sx: i64 = if start_x < end_x {
            1
        } else {
            -1
        };
        let sy: i64 = if start_y < end_y {
            1
        } else {
            -1
        };
        let mut err: i64 = dx - dy;
        let mut x = start_x;
        let mut y = start_y;
        let ghost mut cx: int = 0;
        let ghost mut cy: int = 0;
        let ghost pts = bresenham_points(start, end);
        let ghost mut it: int = 0;
        proof {
            assert(pts == bresenham_walk(
                start_x as int,
                start_y as int,
                err as int,
                sx as int,
                sy as int,
                dx as int,
                dy as int,
                end_x as int,
                end_y as int,
                (dx + dy) as nat,
            ));
            assert(pts.take(0) =~= Seq::<(int, int)>::empty());
            assert(pts =~= pts.take(0) + bresenham_walk(
                start_x as int,
                start_y as int,
                err as int,
                sx as int,
                sy as int,
                dx as int,
                dy as int,
                end_x as int,
                end_y as int,
                (dx + dy) as nat,
            ));
        }
        loop
            invariant_except_break
                forall|k: int|
                    0 <= k < it && pix_in_bounds(
                        self.width as int,
                        self.height as int,
                        (#[trigger] pts[k]).0,
                        pts[k].1,
                    ) ==> self.pixels()[pts[k].1 * self.width + pts[k].0] == color.0,
                forall|i: int|
                    0 <= i < old(self).pixels().len() ==> self.pixels()[i] == old(
                        self,
                    ).pixels()[i] || exists|k: int|
                        0 <= k < it && (#[trigger] pts[k]).0 == i % (self.width as int)
                            && pts[k].1 == i / (self.width as int),
            invariant
                self.wf(),
                self.width == old(self).width,
                self.height == old(self).height,
                -65536 <= start_x <= 65536,
                -65536 <= start_y <= 65536,
                -65536 <= end_x <= 65536,
                -65536 <= end_y <= 65536,
                dx == if end_x >= start_x { end_x - start_x } else { start_x - end_x },
                dy == if end_y >= start_y { end_y - start_y } else { start_y - end_y },
                sx == 1 <==> start_x < end_x,
                sx == 1 || sx == -1,
                sy == 1 <==> start_y < end_y,
                sy == 1 || sy == -1,
                0 <= cx <= dx,
                0 <= cy <= dy,
                sx == 1 ==> x == start_x + cx,
                sx == -1 ==> x == start_x - cx,
                sy == 1 ==> y == start_y + cy,
                sy == -1 ==> y == start_y - cy,
                err == dx - dy - cx * dy + cy * dx,
                0 <= it <= cx + cy,
                it <= dx + dy,
                it <= pts.len(),
                pts == pts.take(it) + bresenham_walk(
                    x as int,
                    y as int,
                    err as int,
                    sx as int,
                    sy as int,
                    dx as int,
                    dy as int,
                    end_x as int,
                    end_y as int,
                    (dx + dy - it) as nat,
                ),
                frame_outside_box(
                    old(self).pixels(),
                    self.pixels(),
                    self.width as int,
                    if start_x <= end_x { start_x as int } else { end_x as int },
                    if start_x >= end_x { start_x as int } else { end_x as int },
                    if start_y <= end_y { start_y as int } else { end_y as int },
                    if start_y >= end_y { start_y as int } else { end_y as int },
                ),
                changed_only_to(old(self).pixels(), self.pixels(), color.0),
                pix_in_bounds(
                    self.width as int,
                    self.height as int,
                    start_x as int,
                    start_y as int,
                ) ==> self.pixels()[start_y * self.width + start_x] == color.0 || (x == start_x
                    && y == start_y),
            ensures
                self.wf(),
                self.width == old(self).width,
                self.height == old(self).height,
                frame_outside_box(
                    old(self).pixels(),
                    self.pixels(),
                    self.width as int,
                    if start_x <= end_x { start_x as int } else { end_x as int },
                    if start_x >= end_x { start_x as int } else { end_x as int },
                    if start_y <= end_y { start_y as int } else { end_y as int },
                    if start_y >= end_y { start_y as int } else { end_y as int },
                ),
                changed_only_to(old(self).pixels(), self.pixels(), color.0),
                pix_in_bounds(
                    self.width as int,
                    self.height as int,
                    start_x as int,
                    start_y as int,
                ) ==> self.pixels()[start_y * self.width + start_x] == color.0,
                pix_in_bounds(
                    self.width as int,
                    self.height as int,
                    end_x as int,
                    end_y as int,
                ) ==> self.pixels()[end_y * self.width + end_x] == color.0,
                forall|k: int|
                    0 <= k < pts.len() && pix_in_bounds(
                        self.width as int,
                        self.height as int,
                        (#[trigger] pts[k]).0,
                        pts[k].1,
                    ) ==> self.pixels()[pts[k].1 * self.width + pts[k].0] == color.0,
                forall|i: int|
                    0 <= i < old(self).pixels().len() ==> self.pixels()[i] == old(
                        self,
                    ).pixels()[i] || exists|k: int|
                        0 <= k < pts.len() && (#[trigger] pts[k]).0 == i % (
                        self.width as int) && pts[k].1 == i / (self.width as int),
            decreases dx + dy - cx - cy,
        {
            let ghost pre = self.pixels();
            let ghost suffix = bresenham_walk(
                x as int,
                y as int,
                err as int,
                sx as int,
                sy as int,
                dx as int,
                dy as int,
                end_x as int,
                end_y as int,
                (dx + dy - it) as nat,
            );
            proof {
                // the walk's next pixel is the current position
                assert(suffix.len() >= 1);
                assert(pts.take(it).len() == it);
                assert(pts.len() == it + suffix.len());
                assert(it < pts.len());
                assert(suffix[0] == (x as int, y as int));
                assert(pts[it] == suffix[0]);
            }
            self.set_pixel(x as i32, y as i32, color);
            proof {
                lemma_walk_write_preserves(
                    old(self).pixels(),
                    pre,
                    self.pixels(),
                    self.width as int,
                    self.height as int,
                    x as int,
                    y as int,
                    color.0,
                    pts,
                    it,
                );
                lemma_line_write_preserves(
                    old(self).pixels(),
                    pre,
                    self.pixels(),
                    self.width as int,
                    self.height as int,
                    x as int,
                    y as int,
                    color.0,
                    if start_x <= end_x { start_x as int } else { end_x as int },
                    if start_x >= end_x { start_x as int } else { end_x as int },
                    if start_y <= end_y { start_y as int } else { end_y as int },
                    if start_y >= end_y { start_y as int } else { end_y as int },
                    start_x as int,
                    start_y as int,
                );
            }
            if x == end_x && y == end_y {
                proof {
                    // at the target the remaining walk is this one pixel
                    assert(suffix =~= seq![(x as int, y as int)]);
                    assert(pts.len() == it + 1);
                }
                break;
            }
            proof {
                assert(!(cx == dx && cy == dy));
                // the accumulated error stays far from the 64-bit bounds
                assert(-0x1_0000_0000_0000 <= err <= 0x1_0000_0000_0000) by (nonlinear_arith)
                    requires
                        err == dx - dy - cx * dy + cy * dx && 0 <= cx <= dx && 0 <= cy <= dy && dx
                            <= 0x4_0000 && dy <= 0x4_0000,
                ;
            }
            let e2 = 2 * err;
            proof {
                // when the horizontal coordinate has arrived, no further
                // horizontal step fires
                if e2 > -dy {
                    assert(cx < dx) by (nonlinear_arith)
                        requires
                            err == dx - dy - cx * dy + cy * dx && 0 <= cx <= dx && 0 <= cy <= dy
                                && !(cx == dx && cy == dy) && 2 * err > -dy,
                    ;
                }
                // nor a vertical one when the vertical has
                if e2 < dx {
                    assert(cy < dy) by (nonlinear_arith)
                        requires
                            err == dx - dy - cx * dy + cy * dx && 0 <= cx <= dx && 0 <= cy <= dy
                                && !(cx == dx && cy == dy) && 2 * err < dx,
                    ;
                }
                // and at least one of the two steps fires
                assert(2 * err > -dy || 2 * err < dx) by (nonlinear_arith)
                    requires
                        err == dx - dy - cx * dy + cy * dx && 0 <= cx <= dx && 0 <= cy <= dy && !(
                        cx == dx && cy == dy),
                ;
            }
            if e2 > -dy {
                proof {
                    assert((cx + 1) * dy == cx * dy + dy) by (nonlinear_arith);
                    cx = cx + 1;
                }
                err = err - dy;
                x = x + sx;
            }
            if e2 < dx {
                proof {
                    assert((cy + 1) * dx == cy * dx + dx) by (nonlinear_arith);
                    cy = cy + 1;
                }
                err = err + dx;
                y = y + sy;
            }
            proof {
                // one walk step was consumed
                assert(suffix == seq![pts[it]] + bresenham_walk(
                    x as int,
                    y as int,
                    err as int,
                    sx as int,
                    sy as int,
                    dx as int,
                    dy as int,
                    end_x as int,
                    end_y as int,
                    (dx + dy - it - 1) as nat,
                ));
                assert(pts.take(it + 1) =~= pts.take(it).push(pts[it]));
                assert(pts =~= pts.take(it + 1) + bresenham_walk(
                    x as int,
                    y as int,
                    err as int,
                    sx as int,
                    sy as int,
                    dx as int,
                    dy as int,
                    end_x as int,
                    end_y as int,
                    (dx + dy - it - 1) as nat,
                ));
                it = it + 1;
            }
        }
    }
}

/// Whether every in-bounds pixel outside the line's region holds the same
/// value in both buffer states.  The region is a box in (major, minor)
/// coordinates: for a steep line the major axis is the row, otherwise the
/// column.
pub open spec fn frame_outside_region(
    old_pix: Seq<u32>,
    new_pix: Seq<u32>,
    w: int,
    steep: bool,
    lo: int,
    hi: int,
    mlo: int,
    mhi: int,
) -> bool {
    &&& new_pix.len() == old_pix.len()
    &&& forall|i: int|
        0 <= i < old_pix.len() && !(lo <= (if steep { i / w } else { i % w }) <= hi && mlo <= (
        if steep { i % w } else { i / w }) <= mhi) ==> #[trigger] new_pix[i] == old_pix[i]
}

/// Every pixel either kept its old value or now stores alpha 255.
pub open spec fn changed_only_opaque(old_pix: Seq<u32>, new_pix: Seq<u32>) -> bool {
    &&& new_pix.len() == old_pix.len()
    &&& forall|i: int| 0 <= i < old_pix.len() ==> #[trigger] new_pix[i] == old_pix[i]
        || alpha_of(new_pix[i]) == 255
}

/// Whether the line from `start` to `end` is steep: its vertical extent
/// exceeds its horizontal one, so rasterization walks rows instead of
/// columns.
pub open spec fn wu_steep(start: Point, end: Point) -> bool {
    let adx = if end.x >= start.x { end.x - start.x } else { start.x - end.x };
    let ady = if end.y >= start.y { end.y - start.y } else { start.y - end.y };
    ady > adx
}

/// The first major-axis pixel of the anti-aliased line: the smaller
/// endpoint coordinate along the major axis, rounded to its pixel.
pub open spec fn wu_major_lo(start: Point, end: Point) -> int {
    let a: int = if wu_steep(start, end) { start.y as int } else { start.x as int };
    let b: int = if wu_steep(start, end) { end.y as int } else { end.x as int };
    ((if a <= b { a } else { b }) + 128) / 256
}

/// The last major-axis pixel of the anti-aliased line.
pub open spec fn wu_major_hi(start: Point, end: Point) -> int {
    let a: int = if wu_steep(start, end) { start.y as int } else { start.x as int };
    let b: int = if wu_steep(start, end) { end.y as int } else { end.x as int };
    ((if a >= b { a } else { b }) + 128) / 256
}

/// The line's endpoints with the axes swapped for a steep line and the
/// endpoints ordered along the major axis: (major, minor) of the first
/// endpoint, then of the second.
pub open spec fn wu_axes(start: Point, end: Point) -> (int, int, int, int) {
    let steep = wu_steep(start, end);
    let ax: int = if steep { start.y as int } else { start.x as int };
    let ay: int = if steep { start.x as int } else { start.y as int };
    let bx: int = if steep { end.y as int } else { end.x as int };
    let by: int = if steep { end.x as int } else { end.y as int };
    if ax > bx {
        (bx, by, ax, ay)
    } else {
        (ax, ay, bx, by)
    }
}

/// The line's slope along the major axis, in fixed-point units per pixel,
/// rounded down; one where the major extent vanishes.
pub open spec fn wu_gradient(start: Point, end: Point) -> int {
    let axes = wu_axes(start, end);
    if axes.2 - axes.0 == 0 {
        256
    } else {
        ((axes.3 - axes.1) * 256) / (axes.2 - axes.0)
    }
}

/// The minor-axis intercept at the first endpoint's rounded major pixel.
pub open spec fn wu_yend1(start: Point, end: Point) -> int {
    let axes = wu_axes(start, end);
    axes.1 + (wu_gradient(start, end) * (((axes.0 + 128) / 256) * 256 - axes.0)) / 256
}

/// The minor-axis intercept at the second endpoint's rounded major pixel.
pub open spec fn wu_yend2(start: Point, end: Point) -> int {
    let axes = wu_axes(start, end);
    axes.3 + (wu_gradient(start, end) * (((axes.2 + 128) / 256) * 256 - axes.2)) / 256
}

/// The smallest minor-axis intercept the rasterization visits, in
/// fixed-point units: the stepped intercept is monotone, so the extremes
/// lie at the endpoints and the first and last interior columns.
pub open spec fn wu_minor_min(start: Point, end: Point) -> int {
    let y1 = wu_yend1(start, end);
    let y2 = wu_yend2(start, end);
    let g = wu_gradient(start, end);
    let k = wu_major_hi(start, end) - wu_major_lo(start, end) - 1;
    let c3 = y1 + g;
    let c4 = y1 + k * g;
    let m1 = if y1 <= y2 { y1 } else { y2 };
    let m2 = if c3 <= c4 { c3 } else { c4 };
    if m1 <= m2 { m1 } else { m2 }
}

/// The greatest minor-axis intercept the rasterization visits.
pub open spec fn wu_minor_max(start: Point, end: Point) -> int {
    let y1 = wu_yend1(start, end);
    let y2 = wu_yend2(start, end);
    let g = wu_gradient(start, end);
    let k = wu_major_hi(start, end) - wu_major_lo(start, end) - 1;
    let c3 = y1 + g;
    let c4 = y1 + k * g;
    let m1 = if y1 >= y2 { y1 } else { y2 };
    let m2 = if c3 >= c4 { c3 } else { c4 };
    if m1 >= m2 { m1 } else { m2 }
}

/// The first minor-axis pixel the anti-aliased line may touch.
pub open spec fn wu_minor_lo(start: Point, end: Point) -> int {
    wu_minor_min(start, end) / 256
}

/// The last minor-axis pixel the anti-aliased line may touch: one past the
/// greatest intercept's pixel, for the second pixel of each straddling
/// pair.
pub open spec fn wu_minor_hi(start: Point, end: Point) -> int {
    wu_minor_max(start, end) / 256 + 1
}

/// One write of the anti-aliased line, back in the original axes: the
/// written pixel and its coverage weight (256 standing for full coverage).
pub open spec fn wu_entry(steep: bool, major: int, minor: int, cov: int) -> (int, int, int) {
    if steep {
        (minor, major, cov)
    } else {
        (major, minor, cov)
    }
}

/// The interior writes of the anti-aliased line, column by column from `x`
/// up to the last rounded endpoint column: the two straddling pixels of
/// each column, weighted by the complementary fractional split of the
/// stepped intercept.
pub open spec fn wu_interior_plots(
    steep: bool,
    ye1: int,
    g: int,
    xp1: int,
    x: int,
    xp2: int,
) -> Seq<(int, int, int)>
    decreases xp2 - x,
{
    if x >= xp2 {
        Seq::empty()
    } else {
        let intery = ye1 + (x - xp1) * g;
        seq![
            wu_entry(steep, x, intery / 256, 256 - intery % 256),
            wu_entry(steep, x, intery / 256 + 1, intery % 256),
        ] + wu_interior_plots(steep, ye1, g, xp1, x + 1, xp2)
    }
}

/// Every write of the anti-aliased line, in order: the two straddling
/// pixels of each rounded endpoint column, additionally weighted by the
/// endpoint's subpixel gap, then the two of every interior column.
pub open spec fn wu_plots(start: Point, end: Point) -> Seq<(int, int, int)> {
    let steep = wu_steep(start, end);
    let axes = wu_axes(start, end);
    let g = wu_gradient(start, end);
    let xp1 = wu_major_lo(start, end);
    let xp2 = wu_major_hi(start, end);
    let ye1 = wu_yend1(start, end);
    let ye2 = wu_yend2(start, end);
    let xgap1 = 256 - (axes.0 + 128) % 256;
    let xgap2 = (axes.2 + 128) % 256;
    seq![
        wu_entry(steep, xp1, ye1 / 256, ((256 - ye1 % 256) * xgap1) / 256),
        wu_entry(steep, xp1, ye1 / 256 + 1, ((ye1 % 256) * xgap1) / 256),
        wu_entry(steep, xp2, ye2 / 256, ((256 - ye2 % 256) * xgap2) / 256),
        wu_entry(steep, xp2, ye2 / 256 + 1, ((ye2 % 256) * xgap2) / 256),
    ] + wu_interior_plots(steep, ye1, g, xp1, xp1 + 1, xp2)
}

/// One coverage-weighted composite applied to a buffer: the color's alpha
/// is scaled by the write's coverage and composited over the addressed
/// pixel; a write outside the buffer changes nothing.
pub open spec fn apply_plot(
    pix: Seq<u32>,
    w: int,
    h: int,
    p: (int, int, int),
    color: Color,
) -> Seq<u32> {
    if pix_in_bounds(w, h, p.0, p.1) {
        pix.update(
            p.1 * w + p.0,
            blend_over(
                pix[p.1 * w + p.0],
                pack_rgba(
                    red_of(color.0),
                    green_of(color.0),
                    blue_of(color.0),
                    scaled_alpha(alpha_of(color.0), p.2),
                ),
            ),
        )
    } else {
        pix
    }
}

/// A sequence of coverage-weighted composites applied left to right.
pub open spec fn apply_plots(
    pix: Seq<u32>,
    w: int,
    h: int,
    pts: Seq<(int, int, int)>,
    color: Color,
) -> Seq<u32>
    decreases pts.len(),
{
    if pts.len() == 0 {
        pix
    } else {
        apply_plots(apply_plot(pix, w, h, pts[0], color), w, h, pts.skip(1), color)
    }
}

/// Applying one more composite after a sequence is the composite of the
/// sequence's result.
proof fn lemma_apply_plots_push(
    pix: Seq<u32>,
    w: int,
    h: int,
    pts: Seq<(int, int, int)>,
    p: (int, int, int),
    color: Color,
)
    ensures
        apply_plots(pix, w, h, pts.push(p), color) == apply_plot(
            apply_plots(pix, w, h, pts, color),
            w,
            h,
            p,
            color,
        ),
    decreases pts.len(),
{
    if pts.len() == 0 {
        let stepped = apply_plot(pix, w, h, p, color);
        assert(pts.push(p)[0] == p);
        assert(pts.push(p).skip(1) =~= Seq::<(int, int, int)>::empty());
        assert(apply_plots(pix, w, h, pts.push(p), color) == apply_plots(
            stepped,
            w,
            h,
            pts.push(p).skip(1),
            color,
        ));
        assert(apply_plots(stepped, w, h, Seq::<(int, int, int)>::empty(), color) == stepped);
    } else {
        let stepped = apply_plot(pix, w, h, pts[0], color);
        assert(pts.push(p)[0] == pts[0]);
        assert(pts.push(p).skip(1) =~= pts.skip(1).push(p));
        assert(apply_plots(pix, w, h, pts.push(p), color) == apply_plots(
            stepped,
            w,
            h,
            pts.push(p).skip(1),
            color,
        ));
        lemma_apply_plots_push(stepped, w, h, pts.skip(1), p, color);
        assert(apply_plots(pix, w, h, pts, color) == apply_plots(stepped, w, h, pts.skip(1), color));
    }
}

/// One more write of the list extends the fold by one composite.
proof fn lemma_step_plots(
    pix: Seq<u32>,
    w: int,
    h: int,
    pts: Seq<(int, int, int)>,
    n: int,
    color: Color,
)
    requires
        0 <= n < pts.len(),
    ensures
        pts.take(n + 1) =~= pts.take(n).push(pts[n]),
        apply_plots(pix, w, h, pts.take(n + 1), color) == apply_plot(
            apply_plots(pix, w, h, pts.take(n), color),
            w,
            h,
            pts[n],
            color,
        ),
{
    assert(pts.take(n + 1) =~= pts.take(n).push(pts[n]));
    lemma_apply_plots_push(pix, w, h, pts.take(n), pts[n], color);
}

/// The anti-aliased line is independent of argument order: the algorithm
/// canonicalizes the endpoints (axis swap for steep lines, then reordering
/// along the major axis), so both directions make the same writes — and,
/// by [`PixelBuffer::draw_line_aa`]'s contract, leave the same buffer.
pub proof fn lemma_wu_plots_symmetric(start: Point, end: Point)
    ensures
        wu_plots(start, end) == wu_plots(end, start),
{
    assert(wu_steep(start, end) == wu_steep(end, start));
    if wu_axes(start, end) != wu_axes(end, start) {
        // the axes only fail to canonicalize when the major coordinates
        // tie, which forces the endpoints to coincide
        let steep = wu_steep(start, end);
        if steep {
            assert(start.y == end.y);
            assert(false);
        } else {
            assert(start.x == end.x);
            assert(start.y == end.y);
            assert(wu_axes(start, end) == wu_axes(end, start));
        }
    }
}

/// A single in-region composite preserves the anti-aliased line frame.
proof fn lemma_aa_write_preserves(
    entry: Seq<u32>,
    pre: Seq<u32>,
    post: Seq<u32>,
    w: int,
    h: int,
    x: int,
    y: int,
    fg: u32,
    steep: bool,
    lo: int,
    hi: int,
    mlo: int,
    mhi: int,
)
    requires
        pre.len() == entry.len(),
        pre.len() == w * h,
        pix_in_bounds(w, h, x, y) ==> post == pre.update(y * w + x, blend_over(pre[y * w + x], fg)),
        !pix_in_bounds(w, h, x, y) ==> post == pre,
        frame_outside_region(entry, pre, w, steep, lo, hi, mlo, mhi),
        changed_only_opaque(entry, pre),
        lo <= (if steep { y } else { x }) <= hi,
        mlo <= (if steep { x } else { y }) <= mhi,
    ensures
        frame_outside_region(entry, post, w, steep, lo, hi, mlo, mhi),
        changed_only_opaque(entry, post),
{
    if pix_in_bounds(w, h, x, y) {
        lemma_index_in_bounds(x, y, w, h);
        lemma_index_decompose(x, y, w);
        let idx = y * w + x;
        lemma_blend_alpha_opaque(pre[idx], fg);
        assert forall|i: int|
            0 <= i < entry.len() && !(lo <= (if steep { i / w } else { i % w }) <= hi && mlo <= (
        if steep { i % w } else { i / w }) <= mhi) implies #[trigger] post[i] == entry[i] by {
            if i == idx {
                assert(lo <= (if steep { i / w } else { i % w }) <= hi);
                assert(mlo <= (if steep { i % w } else { i / w }) <= mhi);
            } else {
                assert(post[i] == pre[i]);
            }
        }
    }
}

/// The pixels the Bresenham walk visits, in order, starting at (x, y)
/// with the accumulated error `err`: the walk emits its position, stops at
/// the target, and otherwise steps along either or both axes as the
/// doubled error directs.  The fuel only bounds the recursion; the drawing
/// loop always has enough for the walk to reach its target.
pub open spec fn bresenham_walk(
    x: int,
    y: int,
    err: int,
    sx: int,
    sy: int,
    dx: int,
    dy: int,
    ex: int,
    ey: int,
    fuel: nat,
) -> Seq<(int, int)>
    decreases fuel,
{
    if x == ex && y == ey {
        seq![(x, y)]
    } else if fuel == 0 {
        seq![(x, y)]
    } else {
        let e2 = 2 * err;
        let x1 = if e2 > -dy {
            x + sx
        } else {
            x
        };
        let err1 = if e2 > -dy {
            err - dy
        } else {
            err
        };
        let y1 = if e2 < dx {
            y + sy
        } else {
            y
        };
        let err2 = if e2 < dx {
            err1 + dx
        } else {
            err1
        };
        seq![(x, y)] + bresenham_walk(x1, y1, err2, sx, sy, dx, dy, ex, ey, (fuel - 1) as nat)
    }
}

/// The pixels the line from `start` to `end` covers: the Bresenham walk
/// between the pixels the endpoints fall in.
pub open spec fn bresenham_points(start: Point, end: Point) -> Seq<(int, int)> {
    let x0 = start.x as int / 256;
    let y0 = start.y as int / 256;
    let ex = end.x as int / 256;
    let ey = end.y as int / 256;
    let dx = if ex >= x0 {
        ex - x0
    } else {
        x0 - ex
    };
    let dy = if ey >= y0 {
        ey - y0
    } else {
        y0 - ey
    };
    let sx: int = if x0 < ex {
        1
    } else {
        -1
    };
    let sy: int = if y0 < ey {
        1
    } else {
        -1
    };
    bresenham_walk(x0, y0, dx - dy, sx, sy, dx, dy, ex, ey, (dx + dy) as nat)
}

/// A single walk write keeps the walk claims: every visited in-bounds
/// pixel so far holds the line color, and every other pixel its old value.
proof fn lemma_walk_write_preserves(
    entry: Seq<u32>,
    pre: Seq<u32>,
    post: Seq<u32>,
    w: int,
    h: int,
    x: int,
    y: int,
    v: u32,
    pts: Seq<(int, int)>,
    it: int,
)
    requires
        pre.len() == entry.len(),
        pre.len() == w * h,
        pix_in_bounds(w, h, x, y) ==> post == pre.update(y * w + x, v),
        !pix_in_bounds(w, h, x, y) ==> post == pre,
        0 <= it < pts.len(),
        pts[it] == (x, y),
        forall|k: int|
            0 <= k < it && pix_in_bounds(w, h, (#[trigger] pts[k]).0, pts[k].1) ==> pre[pts[k].1
                * w + pts[k].0] == v,
        forall|i: int|
            0 <= i < entry.len() ==> pre[i] == entry[i] || exists|k: int|
                0 <= k < it && (#[trigger] pts[k]).0 == i % w && pts[k].1 == i / w,
    ensures
        post.len() == entry.len(),
        forall|k: int|
            0 <= k < it + 1 && pix_in_bounds(w, h, (#[trigger] pts[k]).0, pts[k].1) ==> post[
                pts[k].1 * w + pts[k].0] == v,
        forall|i: int|
            0 <= i < entry.len() ==> post[i] == entry[i] || exists|k: int|
                0 <= k < it + 1 && (#[trigger] pts[k]).0 == i % w && pts[k].1 == i / w,
{
    if pix_in_bounds(w, h, x, y) {
        lemma_index_in_bounds(x, y, w, h);
        lemma_index_decompose(x, y, w);
        let idx = y * w + x;
        assert forall|k: int|
            0 <= k < it + 1 && pix_in_bounds(w, h, (#[trigger] pts[k]).0, pts[k].1) implies post[
            pts[k].1 * w + pts[k].0] == v by {
            lemma_index_in_bounds(pts[k].0, pts[k].1, w, h);
            if k < it && pts[k].1 * w + pts[k].0 != idx {
                assert(post[pts[k].1 * w + pts[k].0] == pre[pts[k].1 * w + pts[k].0]);
            }
        }
        assert forall|i: int|
            0 <= i < entry.len() implies post[i] == entry[i] || exists|k: int|
                0 <= k < it + 1 && (#[trigger] pts[k]).0 == i % w && pts[k].1 == i / w by {
            if i == idx {
                assert((#[trigger] pts[it]).0 == i % w && pts[it].1 == i / w);
            } else {
                assert(post[i] == pre[i]);
            }
        }
    } else {
        assert forall|k: int|
            0 <= k < it + 1 && pix_in_bounds(w, h, (#[trigger] pts[k]).0, pts[k].1) implies post[
            pts[k].1 * w + pts[k].0] == v by {
            assert(k != it);
        }
    }
}

/// A single in-box write preserves the line-drawing frame: the box frame,
/// the written-color claim, and the start-pixel claim.
proof fn lemma_line_write_preserves(
    entry: Seq<u32>,
    pre: Seq<u32>,
    post: Seq<u32>,
    w: int,
    h: int,
    x: int,
    y: int,
    v: u32,
    x_lo: int,
    x_hi: int,
    y_lo: int,
    y_hi: int,
    sx0: int,
    sy0: int,
)
    requires
        pre.len() == entry.len(),
        pre.len() == w * h,
        x_lo <= x <= x_hi,
        y_lo <= y <= y_hi,
        pix_in_bounds(w, h, x, y) ==> post == pre.update(y * w + x, v),
        !pix_in_bounds(w, h, x, y) ==> post == pre,
        frame_outside_box(entry, pre, w, x_lo, x_hi, y_lo, y_hi),
        changed_only_to(entry, pre, v),
        x_lo <= sx0 <= x_hi && y_lo <= sy0 <= y_hi,
        pix_in_bounds(w, h, sx0, sy0) ==> pre[sy0 * w + sx0] == v || (x == sx0 && y == sy0),
    ensures
        frame_outside_box(entry, post, w, x_lo, x_hi, y_lo, y_hi),
        changed_only_to(entry, post, v),
        pix_in_bounds(w, h, sx0, sy0) ==> (post[sy0 * w + sx0] == v || (x == sx0 && y == sy0)),
        pix_in_bounds(w, h, sx0, sy0) && x == sx0 && y == sy0 ==> post[sy0 * w + sx0] == v,
        pix_in_bounds(w, h, x, y) ==> post[y * w + x] == v,
{
    if pix_in_bounds(w, h, x, y) {
        lemma_index_in_bounds(x, y, w, h);
        lemma_index_decompose(x, y, w);
        let idx = y * w + x;
        assert forall|i: int|
            0 <= i < entry.len() && !(x_lo <= i % w <= x_hi && y_lo <= i / w <= y_hi)
                implies #[trigger] post[i] == entry[i] by {
            if i == idx {
                assert(x_lo <= i % w <= x_hi && y_lo <= i / w <= y_hi);
            } else {
                assert(post[i] == pre[i]);
            }
        }
        if pix_in_bounds(w, h, sx0, sy0) {
            lemma_index_in_bounds(sx0, sy0, w, h);
            lemma_index_decompose(sx0, sy0, w);
            if sy0 * w + sx0 != idx {
                assert(post[sy0 * w + sx0] == pre[sy0 * w + sx0]);
            } else {
                assert((sy0 * w + sx0) / w == sy0 && idx / w == y);
                assert((sy0 * w + sx0) % w == sx0 && idx % w == x);
            }
        }
    }
}

/// The product of two coverage weights, scaled back to a single weight.
fn weight_mul(a: i64, b: i64) -> (r: u32)
    requires
        0 <= a <= 256,
        0 <= b <= 256,
    ensures
        r == (a * b) / 256,
        r <= 256,
{
    proof {
        assert(0 <= a * b <= 256 * 256) by (nonlinear_arith)
            requires 0 <= a <= 256 && 0 <= b <= 256;
        vstd::arithmetic::div_mod::lemma_div_pos_is_pos(a as int * b as int, 256);
        lemma_div_is_ordered(a as int * b as int, (256 * 256) as int, 256);
    }
    crate::fixed::div_floor(a * b, 256) as u32
}

impl PixelBuffer {
    /// Composites one coverage-weighted pixel of an anti-aliased line,
    /// carrying the line's frame along: writes stay within the major-axis
    /// span, and every write stores alpha 255.
    fn plot_span(
        &mut self,
        x: i32,
        y: i32,
        color: Color,
        coverage: u32,
        Ghost(entry): Ghost<Seq<u32>>,
        Ghost(steep): Ghost<bool>,
        Ghost(lo): Ghost<int>,
        Ghost(hi): Ghost<int>,
        Ghost(mlo): Ghost<int>,
        Ghost(mhi): Ghost<int>,
    )
        requires
            old(self).wf(),
            coverage <= 256,
            entry.len() == old(self).pixels().len(),
            frame_outside_region(
                entry,
                old(self).pixels(),
                old(self).width as int,
                steep,
                lo,
                hi,
                mlo,
                mhi,
            ),
            changed_only_opaque(entry, old(self).pixels()),
            lo <= (if steep { y as int } else { x as int }) <= hi,
            mlo <= (if steep { x as int } else { y as int }) <= mhi,
        ensures
            final(self).wf(),
            final(self).width == old(self).width,
            final(self).height == old(self).height,
            entry.len() == final(self).pixels().len(),
            frame_outside_region(
                entry,
                final(self).pixels(),
                old(self).width as int,
                steep,
                lo,
                hi,
                mlo,
                mhi,
            ),
            changed_only_opaque(entry, final(self).pixels()),
            final(self).pixels() == apply_plot(
                old(self).pixels(),
                old(self).width as int,
                old(self).height as int,
                (x as int, y as int, coverage as int),
                color,
            ),
    {
        let ghost pre = self.pixels();
        self.plot(x, y, color, coverage);
        proof {
            lemma_aa_write_preserves(
                entry,
                pre,
                self.pixels(),
                self.width as int,
                self.height as int,
                x as int,
                y as int,
                pack_rgba(
                    red_of(color.0),
                    green_of(color.0),
                    blue_of(color.0),
                    scaled_alpha(alpha_of(color.0), coverage as int),
                ),
                steep,
                lo,
                hi,
                mlo,
                mhi,
            );
        }
    }

    /// Draws an anti-aliased line from `start` to `end` by Wu's algorithm:
    /// along the major axis each crossed column (or row, for a steep line)
    /// gets the two straddling pixels composited with complementary
    /// coverage weights, the endpoints additionally weighted by their
    /// subpixel overhang.  The resulting buffer is exactly the write list
    /// [`wu_plots`] composited in order over the old pixels; the writes
    /// stay within the major-axis span of the rounded endpoints and the
    /// minor-axis band of the visited intercepts, and every written pixel
    /// stores alpha 255.
    #[verifier::rlimit(100)]
    pub fn draw_line_aa(&mut self, start: Point, end: Point, color: Color)
        requires
            old(self).wf(),
            start.in_range(),
            end.in_range(),
        ensures
            final(self).wf(),
            final(self).width == old(self).width,
            final(self).height == old(self).height,
            frame_outside_region(
                old(self).pixels(),
                final(self).pixels(),
                old(self).width as int,
                wu_steep(start, end),
                wu_major_lo(start, end),
                wu_major_hi(start, end),
                wu_minor_lo(start, end),
                wu_minor_hi(start, end),
            ),
            changed_only_opaque(old(self).pixels(), final(self).pixels()),
            final(self).pixels() == apply_plots(
                old(self).pixels(),
                old(self).width as int,
                old(self).height as int,
                wu_plots(start, end),
                color,
            ),
    {
        let ghost entry = self.pixels();
        let mut sx = start.x;
        let mut sy = start.y;
        let mut ex = end.x;
        let mut ey = end.y;
        let steep = crate::fixed::abs_i64(ey - sy) > crate::fixed::abs_i64(ex - sx);
        if steep {
            let t = sx;
            sx = sy;
            sy = t;
            let t2 = ex;
            ex = ey;
            ey = t2;
        }
        if sx > ex {
            let t = sx;
            sx = ex;
            ex = t;
            let t2 = sy;
            sy = ey;
            ey = t2;
        }
        let dx = ex - sx;
        let dy = ey - sy;
        let gradient: i64 = if dx == 0 {
            256
        } else {
            proof {
                lemma_mul_bound(dy as int, 256, 0x2_000_000, 256);
                assert((dx as int) * -256 <= (dy as int) * 256 && (dy as int) * 256 <= (dx as int)
                    * 256) by (nonlinear_arith)
                    requires -(dx as int) <= dy as int <= dx as int;
                vstd::arithmetic::div_mod::lemma_div_multiples_vanish(256, dx as int);
                vstd::arithmetic::div_mod::lemma_div_multiples_vanish(-256, dx as int);
                lemma_div_is_ordered((dx as int) * -256, (dy as int) * 256, dx as int);
                lemma_div_is_ordered((dy as int) * 256, (dx as int) * 256, dx as int);
                assert((dx as int) * -256 == (dx as int) * (-256) && (dx as int) * 256
                    == (dx as int) * 256) by (nonlinear_arith);
            }
            crate::fixed::div_floor(dy * 256, dx)
        };
        let ghost lo = ((sx as int) + 128) / 256;
        let ghost hi = ((ex as int) + 128) / 256;
        proof {
            lemma_div_is_ordered(sx as int + 128, ex as int + 128, 256);
            lemma_div_is_ordered(-0x100_0000 + 128, sx as int + 128, 256);
            lemma_div_is_ordered(sx as int + 128, (0x100_0000 + 128) as int, 256);
            lemma_div_is_ordered(-0x100_0000 + 128, ex as int + 128, 256);
            lemma_div_is_ordered(ex as int + 128, (0x100_0000 + 128) as int, 256);
        }
        // the rounded endpoint columns and their intercepts
        let xpxl1 = crate::fixed::fx_round(sx);
        let yend1 = endpoint_intercept(sy, gradient, xpxl1, sx);
        let xgap1 = 256 - crate::fixed::fx_fract(sx + 128);
        let ypxl1 = crate::fixed::fx_floor(yend1);
        let f1 = crate::fixed::fx_fract(yend1);
        let xpxl2 = crate::fixed::fx_round(ex);
        let yend2 = endpoint_intercept(ey, gradient, xpxl2, ex);
        let xgap2 = crate::fixed::fx_fract(ex + 128);
        let ypxl2 = crate::fixed::fx_floor(yend2);
        let f2 = crate::fixed::fx_fract(yend2);
        // the minor-axis band: the stepped intercept is monotone, so its
        // extremes sit at the first and last interior columns
        let ghost kk: int = hi - lo - 1;
        let ghost c3: int = yend1 as int + gradient as int;
        let ghost c4: int = yend1 as int + kk * (gradient as int);
        let ghost m_min: int = {
            let m1 = if yend1 <= yend2 { yend1 as int } else { yend2 as int };
            let m2 = if c3 <= c4 { c3 } else { c4 };
            if m1 <= m2 { m1 } else { m2 }
        };
        let ghost m_max: int = {
            let m1 = if yend1 >= yend2 { yend1 as int } else { yend2 as int };
            let m2 = if c3 >= c4 { c3 } else { c4 };
            if m1 >= m2 { m1 } else { m2 }
        };
        let ghost mlo: int = m_min / 256;
        let ghost mhi: int = m_max / 256 + 1;
        proof {
            assert(steep == wu_steep(start, end));
            assert(sx as int == wu_axes(start, end).0 && sy as int == wu_axes(start, end).1
                && ex as int == wu_axes(start, end).2 && ey as int == wu_axes(start, end).3);
            assert(gradient == wu_gradient(start, end));
            assert(yend1 == wu_yend1(start, end));
            assert(yend2 == wu_yend2(start, end));
            assert(lo == wu_major_lo(start, end));
            assert(hi == wu_major_hi(start, end));
            assert(m_min == wu_minor_min(start, end));
            assert(m_max == wu_minor_max(start, end));
            lemma_div_is_ordered(m_min, yend1 as int, 256);
            lemma_div_is_ordered(yend1 as int, m_max, 256);
            lemma_div_is_ordered(m_min, yend2 as int, 256);
            lemma_div_is_ordered(yend2 as int, m_max, 256);
            lemma_div_is_ordered(-0x1_100_000, yend1 as int, 256);
            lemma_div_is_ordered(yend1 as int, 0x1_100_000, 256);
            lemma_div_is_ordered(-0x1_100_000, yend2 as int, 256);
            lemma_div_is_ordered(yend2 as int, 0x1_100_000, 256);
        }
        // the writes this call makes, in order
        let ghost pts = wu_plots(start, end);
        let ghost mut n: int = 0;
        let ghost w = old(self).width as int;
        let ghost h = old(self).height as int;
        // first endpoint
        let c1a = weight_mul(256 - f1, xgap1);
        let c1b = weight_mul(f1, xgap1);
        let c2a = weight_mul(256 - f2, xgap2);
        let c2b = weight_mul(f2, xgap2);
        proof {
            assert(pts[0] == wu_entry(steep, xpxl1 as int, ypxl1 as int, c1a as int));
            assert(pts[1] == wu_entry(steep, xpxl1 as int, ypxl1 as int + 1, c1b as int));
            assert(pts[2] == wu_entry(steep, xpxl2 as int, ypxl2 as int, c2a as int));
            assert(pts[3] == wu_entry(steep, xpxl2 as int, ypxl2 as int + 1, c2b as int));
            assert(pts.take(0) =~= Seq::<(int, int, int)>::empty());
            assert(apply_plots(entry, w, h, pts.take(0), color) == entry);
        }
        if steep {
            proof {
                lemma_step_plots(entry, w, h, pts, n, color);
            }
            self.plot_span(ypxl1 as i32, xpxl1 as i32, color, c1a, Ghost(entry), Ghost(steep), Ghost(lo), Ghost(hi), Ghost(mlo), Ghost(mhi));
            proof {
                n = n + 1;
                lemma_step_plots(entry, w, h, pts, n, color);
            }
            self.plot_span(ypxl1 as i32 + 1, xpxl1 as i32, color, c1b, Ghost(entry), Ghost(steep), Ghost(lo), Ghost(hi), Ghost(mlo), Ghost(mhi));
            proof {
                n = n + 1;
                assert(self.pixels() == apply_plots(entry, w, h, pts.take(n), color));
            }
        } else {
            proof {
                lemma_step_plots(entry, w, h, pts, n, color);
            }
            self.plot_span(xpxl1 as i32, ypxl1 as i32, color, c1a, Ghost(entry), Ghost(steep), Ghost(lo), Ghost(hi), Ghost(mlo), Ghost(mhi));
            proof {
                n = n + 1;
                lemma_step_plots(entry, w, h, pts, n, color);
            }
            self.plot_span(xpxl1 as i32, ypxl1 as i32 + 1, color, c1b, Ghost(entry), Ghost(steep), Ghost(lo), Ghost(hi), Ghost(mlo), Ghost(mhi));
            proof {
                n = n + 1;
                assert(self.pixels() == apply_plots(entry, w, h, pts.take(n), color));
            }
        }
        let mut intery = yend1 + gradient;
        // second endpoint
        if steep {
            proof {
                lemma_step_plots(entry, w, h, pts, n, color);
            }
            self.plot_span(ypxl2 as i32, xpxl2 as i32, color, c2a, Ghost(entry), Ghost(steep), Ghost(lo), Ghost(hi), Ghost(mlo), Ghost(mhi));
            proof {
                n = n + 1;
                lemma_step_plots(entry, w, h, pts, n, color);
            }
            self.plot_span(ypxl2 as i32 + 1, xpxl2 as i32, color, c2b, Ghost(entry), Ghost(steep), Ghost(lo), Ghost(hi), Ghost(mlo), Ghost(mhi));
            proof {
                n = n + 1;
                assert(self.pixels() == apply_plots(entry, w, h, pts.take(n), color));
            }
        } else {
            proof {
                lemma_step_plots(entry, w, h, pts, n, color);
            }
            self.plot_span(xpxl2 as i32, ypxl2 as i32, color, c2a, Ghost(entry), Ghost(steep), Ghost(lo), Ghost(hi), Ghost(mlo), Ghost(mhi));
            proof {
                n = n + 1;
                lemma_step_plots(entry, w, h, pts, n, color);
            }
            self.plot_span(xpxl2 as i32, ypxl2 as i32 + 1, color, c2b, Ghost(entry), Ghost(steep), Ghost(lo), Ghost(hi), Ghost(mlo), Ghost(mhi));
            proof {
                n = n + 1;
                assert(self.pixels() == apply_plots(entry, w, h, pts.take(n), color));
            }
        }
        // interior columns
        let mut x = xpxl1 + 1;
        proof {
            assert((xpxl1 as int + 1 - xpxl1 as int) * (gradient as int) == gradient as int)
                by (nonlinear_arith);
            assert(pts.skip(4) =~= wu_interior_plots(
                steep,
                yend1 as int,
                gradient as int,
                xpxl1 as int,
                xpxl1 as int + 1,
                xpxl2 as int,
            ));
        }
        while x < xpxl2
            invariant
                self.wf(),
                self.width == old(self).width,
                self.height == old(self).height,
                w == self.width as int,
                h == self.height as int,
                entry.len() == self.pixels().len(),
                frame_outside_region(entry, self.pixels(), self.width as int, steep, lo, hi, mlo, mhi),
                changed_only_opaque(entry, self.pixels()),
                n == 4 + 2 * (x - xpxl1 - 1),
                0 <= n <= pts.len(),
                self.pixels() == apply_plots(entry, w, h, pts.take(n), color),
                pts.skip(n) == wu_interior_plots(
                    steep,
                    yend1 as int,
                    gradient as int,
                    xpxl1 as int,
                    x as int,
                    xpxl2 as int,
                ),
                lo == xpxl1 as int,
                hi == xpxl2 as int,
                kk == hi - lo - 1,
                c3 == yend1 as int + gradient as int,
                c4 == yend1 as int + kk * (gradient as int),
                m_min <= c3 && m_min <= c4,
                c3 <= m_max && c4 <= m_max,
                mlo == m_min / 256,
                mhi == m_max / 256 + 1,
                xpxl1 < x <= xpxl2 || x == xpxl1 + 1,
                -66000 <= xpxl1 <= 66000,
                -66000 <= xpxl2 <= 66000,
                -256 <= gradient <= 256,
                -0x1_100_000 <= yend1 <= 0x1_100_000,
                intery == yend1 + (x - xpxl1) * gradient,
            decreases xpxl2 - x,
        {
            proof {
                lemma_mul_bound(x as int - xpxl1 as int, gradient as int, 0x40_000, 256);
                // the stepped intercept stays between its first and last
                // interior values
                let j = x as int - xpxl1 as int;
                let g = gradient as int;
                if g >= 0 {
                    assert(g <= j * g && j * g <= kk * g) by (nonlinear_arith)
                        requires 1 <= j <= kk && g >= 0;
                } else {
                    assert(kk * g <= j * g && j * g <= g) by (nonlinear_arith)
                        requires 1 <= j <= kk && g < 0;
                }
                lemma_div_is_ordered(m_min, intery as int, 256);
                lemma_div_is_ordered(intery as int, m_max, 256);
            }
            let fl = crate::fixed::fx_floor(intery);
            let fr = crate::fixed::fx_fract(intery);
            proof {
                lemma_div_is_ordered(-0x5_100_000, intery as int, 256);
                lemma_div_is_ordered(intery as int, 0x5_100_000, 256);
                // this column's two writes head the remaining write list
                assert(wu_interior_plots(
                    steep,
                    yend1 as int,
                    gradient as int,
                    xpxl1 as int,
                    x as int,
                    xpxl2 as int,
                ) == seq![
                    wu_entry(steep, x as int, fl as int, (256 - fr) as int),
                    wu_entry(steep, x as int, fl as int + 1, fr as int),
                ] + wu_interior_plots(
                    steep,
                    yend1 as int,
                    gradient as int,
                    xpxl1 as int,
                    x as int + 1,
                    xpxl2 as int,
                ));
                assert(pts.skip(n)[0] == pts[n]);
                assert(pts.skip(n)[1] == pts[n + 1]);
                assert(pts[n] == wu_entry(steep, x as int, fl as int, (256 - fr) as int));
                assert(pts[n + 1] == wu_entry(steep, x as int, fl as int + 1, fr as int));
                lemma_step_plots(entry, w, h, pts, n, color);
            }
            if steep {
                self.plot_span(fl as i32, x as i32, color, (256 - fr) as u32, Ghost(entry), Ghost(steep), Ghost(lo), Ghost(hi), Ghost(mlo), Ghost(mhi));
                proof {
                    n = n + 1;
                    assert(self.pixels() == apply_plots(entry, w, h, pts.take(n), color));
                    lemma_step_plots(entry, w, h, pts, n, color);
                }
                self.plot_span(fl as i32 + 1, x as i32, color, fr as u32, Ghost(entry), Ghost(steep), Ghost(lo), Ghost(hi), Ghost(mlo), Ghost(mhi));
                proof {
                    n = n + 1;
                    assert(self.pixels() == apply_plots(entry, w, h, pts.take(n), color));
                }
            } else {
                self.plot_span(x as i32, fl as i32, color, (256 - fr) as u32, Ghost(entry), Ghost(steep), Ghost(lo), Ghost(hi), Ghost(mlo), Ghost(mhi));
                proof {
                    n = n + 1;
                    assert(self.pixels() == apply_plots(entry, w, h, pts.take(n), color));
                    lemma_step_plots(entry, w, h, pts, n, color);
                }
                self.plot_span(x as i32, fl as i32 + 1, color, fr as u32, Ghost(entry), Ghost(steep), Ghost(lo), Ghost(hi), Ghost(mlo), Ghost(mhi));
                proof {
                    n = n + 1;
                    assert(self.pixels() == apply_plots(entry, w, h, pts.take(n), color));
                }
            }
            proof {
                assert((x + 1 - xpxl1) * gradient == (x - xpxl1) * gradient + gradient)
                    by (nonlinear_arith);
                let rest = wu_interior_plots(
                    steep,
                    yend1 as int,
                    gradient as int,
                    xpxl1 as int,
                    x as int + 1,
                    xpxl2 as int,
                );
                assert(pts.skip(n - 2).len() == rest.len() + 2);
                assert(pts.skip(n) =~= rest) by {
                    assert forall|i: int| 0 <= i < rest.len() implies pts.skip(n)[i]
                        == rest[i] by {
                        assert(pts.skip(n)[i] == pts[n + i]);
                        assert(pts.skip(n - 2)[i + 2] == pts[n + i]);
                        assert(pts.skip(n - 2)[i + 2] == rest[i]);
                    }
                }
            }
            intery = intery + gradient;
            x = x + 1;
        }
        proof {
            // past the last column the write list is exhausted
            assert(wu_interior_plots(
                steep,
                yend1 as int,
                gradient as int,
                xpxl1 as int,
                x as int,
                xpxl2 as int,
            ) =~= Seq::<(int, int, int)>::empty());
            assert(pts.skip(n).len() == 0);
            assert(pts.take(n) =~= pts);
        }
    }
}

/// The fractional y-intercept at an endpoint's rounded column: the
/// endpoint's minor coordinate adjusted by the gradient over the rounding
/// offset.
fn endpoint_intercept(minor: i64, gradient: i64, px: i64, major: i64) -> (r: i64)
    requires
        -0x100_0000 <= minor <= 0x100_0000,
        -256 <= gradient <= 256,
        px == (major as int + 128) / 256,
        -0x100_0000 <= major <= 0x100_0000,
    ensures
        r == minor + (gradient * (px * 256 - major)) / 256,
        -0x1_100_000 <= r <= 0x1_100_000,
{
    proof {
        vstd::arithmetic::div_mod::lemma_fundamental_div_mod(major as int + 128, 256);
        assert(-127 <= px as int * 256 - major <= 128);
        lemma_mul_bound(gradient as int, px as int * 256 - major, 256, 128);
        lemma_div_is_ordered(-0x8000, gradient as int * (px as int * 256 - major), 256);
        lemma_div_is_ordered(gradient as int * (px as int * 256 - major), 0x8000, 256);
    }
    let d = px * 256 - major;
    minor + crate::fixed::div_floor(gradient * d, 256)
}

/// A flat index into a row-major buffer addresses in-bounds coordinates.
pub(crate) proof fn lemma_flat_coords(i: int, w: int, h: int)
    requires
        0 <= i < w * h,
        0 < w,
    ensures
        0 <= i % w < w,
        0 <= i / w < h,
{
    vstd::arithmetic::div_mod::lemma_mod_division_less_than_divisor(i, w);
    vstd::arithmetic::div_mod::lemma_div_pos_is_pos(i, w);
    vstd::arithmetic::div_mod::lemma_fundamental_div_mod_converse_div(
        (h - 1) * w + (w - 1),
        w,
        h - 1,
        w - 1,
    );
    assert(i <= (h - 1) * w + (w - 1)) by (nonlinear_arith)
        requires i < w * h && 0 < w;
    lemma_div_is_ordered(i, (h - 1) * w + (w - 1), w);
}

/// A scaled alpha stays a byte.
proof fn lemma_scaled_alpha_bound(a: int, coverage: int)
    requires
        0 <= a <= 255,
        0 <= coverage <= 256,
    ensures
        0 <= (a * coverage) / 256 <= 255,
{
    assert(0 <= a * coverage <= 255 * 256) by (nonlinear_arith)
        requires 0 <= a <= 255 && 0 <= coverage <= 256;
    vstd::arithmetic::div_mod::lemma_div_pos_is_pos(a * coverage, 256);
    lemma_div_is_ordered(a * coverage, (255 * 256) as int, 256);
}

/// A row-major index from in-bounds coordinates stays within the buffer.
pub(crate) proof fn lemma_index_in_bounds(x: int, y: int, w: int, h: int)
    requires
        0 <= x < w,
        0 <= y < h,
    ensures
        0 <= y * w + x < w * h,
{
    assert(y * w + x < w * h) by (nonlinear_arith)
        requires 0 <= x < w && 0 <= y < h;
    assert(y * w >= 0) by (nonlinear_arith)
        requires y >= 0 && w >= 0;
}

} // verus!
