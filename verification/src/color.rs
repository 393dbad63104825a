//! Packed 32-bit colors: channel packing and extraction, alpha replacement,
//! HSV conversion, and rendering to a human-readable string.

use vstd::prelude::*;
use vstd::string::StringExecFns;

verus! {

/// A color packed into one 32-bit value.  Byte layout from most significant
/// to least significant: alpha, red, green, blue.
#[derive(Clone, Copy, PartialEq, Eq, Structural, Debug)]
pub struct Color(pub u32);

/// How [`Color::fmt_debug`] renders a color: decimal channel values, or a
/// hexadecimal RGB triple.
pub enum ColorFormat {
    Rgba,
    RGBHex,
}

/// The packed value holding the four channel bytes.
pub open spec fn pack_rgba(r: u8, g: u8, b: u8, a: u8) -> u32 {
    ((a as u32) << 24) | ((r as u32) << 16) | ((g as u32) << 8) | (b as u32)
}

/// The red byte of a packed value.
pub open spec fn red_of(v: u32) -> u8 {
    ((v >> 16) & 0xFF) as u8
}

/// The green byte of a packed value.
pub open spec fn green_of(v: u32) -> u8 {
    ((v >> 8) & 0xFF) as u8
}

/// The blue byte of a packed value.
pub open spec fn blue_of(v: u32) -> u8 {
    (v & 0xFF) as u8
}

/// The alpha byte of a packed value.
pub open spec fn alpha_of(v: u32) -> u8 {
    ((v >> 24) & 0xFF) as u8
}

/// Packing four channel bytes and extracting them again recovers each byte
/// exactly, for all byte values.
pub proof fn lemma_pack_roundtrip(r: u8, g: u8, b: u8, a: u8)
    ensures
        red_of(pack_rgba(r, g, b, a)) == r,
        green_of(pack_rgba(r, g, b, a)) == g,
        blue_of(pack_rgba(r, g, b, a)) == b,
        alpha_of(pack_rgba(r, g, b, a)) == a,
{
    let rv = r as u32;
    let gv = g as u32;
    let bv = b as u32;
    let av = a as u32;
    assert((((av << 24) | (rv << 16) | (gv << 8) | bv) >> 16) & 0xFF == rv) by (bit_vector)
        requires rv < 256 && gv < 256 && bv < 256 && av < 256;
    assert((((av << 24) | (rv << 16) | (gv << 8) | bv) >> 8) & 0xFF == gv) by (bit_vector)
        requires rv < 256 && gv < 256 && bv < 256 && av < 256;
    assert(((av << 24) | (rv << 16) | (gv << 8) | bv) & 0xFF == bv) by (bit_vector)
        requires rv < 256 && gv < 256 && bv < 256 && av < 256;
    assert((((av << 24) | (rv << 16) | (gv << 8) | bv) >> 24) & 0xFF == av) by (bit_vector)
        requires rv < 256 && gv < 256 && bv < 256 && av < 256;
}

/// Every packed value is the packing of its own four channel bytes.
pub proof fn lemma_unpack_pack(v: u32)
    ensures
        pack_rgba(red_of(v), green_of(v), blue_of(v), alpha_of(v)) == v,
{
    assert((((v >> 24) & 0xFF) << 24) | (((v >> 16) & 0xFF) << 16) | (((v >> 8) & 0xFF) << 8)
        | (v & 0xFF) == v) by (bit_vector);
    assert(((v >> 16) & 0xFF) < 256 && ((v >> 8) & 0xFF) < 256 && (v & 0xFF) < 256 && ((v >> 24)
        & 0xFF) < 256) by (bit_vector);
}

/// The triangular weight of the HSV conversion: how far the hue is, within
/// its 120-degree band, from the band's outer edges, in degrees (0 to 60).
pub open spec fn hsv_tri(h: u32) -> int {
    let hm = (h as int) % 120;
    if hm < 60 {
        hm
    } else {
        120 - hm
    }
}

/// The chroma of the HSV conversion, in byte scale.
pub open spec fn hsv_chroma(s: u8, v: u8) -> int {
    (v as int * s as int) / 255
}

/// The packed color that the HSV conversion yields: hue in degrees, and
/// saturation and value as bytes (255 standing for one).  The alpha byte of
/// the result is always 255.
pub open spec fn hsv_color(h: u32, s: u8, v: u8) -> u32 {
    let c = hsv_chroma(s, v);
    let x = (c * hsv_tri(h)) / 60;
    let m = v as int - c;
    let sector = ((h as int) % 360) / 60;
    let rgb: (int, int, int) = if sector == 0 {
        (c, x, 0)
    } else if sector == 1 {
        (x, c, 0)
    } else if sector == 2 {
        (0, c, x)
    } else if sector == 3 {
        (0, x, c)
    } else if sector == 4 {
        (x, 0, c)
    } else {
        (c, 0, x)
    };
    pack_rgba((rgb.0 + m) as u8, (rgb.1 + m) as u8, (rgb.2 + m) as u8, 255u8)
}

/// With zero saturation the HSV conversion yields the gray with all three
/// channels equal to the value byte, whatever the hue.
pub proof fn lemma_hsv_gray(h: u32, v: u8)
    ensures
        hsv_color(h, 0, v) == pack_rgba(v, v, v, 255),
{
    assert(hsv_chroma(0, v) == 0);
    assert((0int * hsv_tri(h)) / 60 == 0);
}

/// The HSV conversion always yields a fully opaque color.
pub proof fn lemma_hsv_opaque(h: u32, s: u8, v: u8)
    ensures
        alpha_of(hsv_color(h, s, v)) == 255,
{
    let c = hsv_chroma(s, v);
    let x = (c * hsv_tri(h)) / 60;
    let m = v as int - c;
    let sector = ((h as int) % 360) / 60;
    let rgb: (int, int, int) = if sector == 0 {
        (c, x, 0)
    } else if sector == 1 {
        (x, c, 0)
    } else if sector == 2 {
        (0, c, x)
    } else if sector == 3 {
        (0, x, c)
    } else if sector == 4 {
        (x, 0, c)
    } else {
        (c, 0, x)
    };
    lemma_pack_roundtrip((rgb.0 + m) as u8, (rgb.1 + m) as u8, (rgb.2 + m) as u8, 255u8);
}

/// The character for one digit value, upper case beyond nine.
pub open spec fn digit_char(d: int) -> char {
    if d == 0 {
        '0'
    } else if d == 1 {
        '1'
    } else if d == 2 {
        '2'
    } else if d == 3 {
        '3'
    } else if d == 4 {
        '4'
    } else if d == 5 {
        '5'
    } else if d == 6 {
        '6'
    } else if d == 7 {
        '7'
    } else if d == 8 {
        '8'
    } else if d == 9 {
        '9'
    } else if d == 10 {
        'A'
    } else if d == 11 {
        'B'
    } else if d == 12 {
        'C'
    } else if d == 13 {
        'D'
    } else if d == 14 {
        'E'
    } else {
        'F'
    }
}

/// The decimal rendering of a byte, without leading zeros.
pub open spec fn dec_seq(n: int) -> Seq<char> {
    if n < 10 {
        seq![digit_char(n)]
    } else if n < 100 {
        seq![digit_char(n / 10), digit_char(n % 10)]
    } else {
        seq![digit_char(n / 100), digit_char((n / 10) % 10), digit_char(n % 10)]
    }
}

/// The two-digit upper-case hexadecimal rendering of a byte.
pub open spec fn hex_seq(n: int) -> Seq<char> {
    seq![digit_char(n / 16), digit_char(n % 16)]
}

/// The decimal rendering of a packed color: each channel in order, with
/// its name.
pub open spec fn rgba_debug_seq(v: u32) -> Seq<char> {
    seq!['C', 'o', 'l', 'o', 'r', '(', 'r', ':', ' '] + dec_seq(red_of(v) as int) + seq![
        ',',
        ' ',
        'g',
        ':',
        ' ',
    ] + dec_seq(green_of(v) as int) + seq![',', ' ', 'b', ':', ' '] + dec_seq(blue_of(v) as int)
        + seq![',', ' ', 'a', ':', ' '] + dec_seq(alpha_of(v) as int) + seq![')']
}

/// The hexadecimal rendering of a packed color: a hash and the three
/// color channels, two digits each.
pub open spec fn hex_debug_seq(v: u32) -> Seq<char> {
    seq!['C', 'o', 'l', 'o', 'r', '(', '#'] + hex_seq(red_of(v) as int) + hex_seq(
        green_of(v) as int,
    ) + hex_seq(blue_of(v) as int) + seq![')']
}

/// The one-character string for a digit value.
pub(crate) fn digit_str(d: u8) -> (r: &'static str)
    requires
        d < 16,
    ensures
        r@ == seq![digit_char(d as int)],
{
    proof {
        reveal_strlit("0");
        reveal_strlit("1");
        reveal_strlit("2");
        reveal_strlit("3");
        reveal_strlit("4");
        reveal_strlit("5");
        reveal_strlit("6");
        reveal_strlit("7");
        reveal_strlit("8");
        reveal_strlit("9");
        reveal_strlit("A");
        reveal_strlit("B");
        reveal_strlit("C");
        reveal_strlit("D");
        reveal_strlit("E");
        reveal_strlit("F");
    }
    let r = if d == 0 {
        "0"
    } else if d == 1 {
        "1"
    } else if d == 2 {
        "2"
    } else if d == 3 {
        "3"
    } else if d == 4 {
        "4"
    } else if d == 5 {
        "5"
    } else if d == 6 {
        "6"
    } else if d == 7 {
        "7"
    } else if d == 8 {
        "8"
    } else if d == 9 {
        "9"
    } else if d == 10 {
        "A"
    } else if d == 11 {
        "B"
    } else if d == 12 {
        "C"
    } else if d == 13 {
        "D"
    } else if d == 14 {
        "E"
    } else {
        "F"
    };
    proof {
        assert(r@ =~= seq![digit_char(d as int)]);
    }
    r
}

/// Appends the decimal rendering of a byte, without leading zeros.
fn append_dec(s: &mut String, n: u8)
    ensures
        final(s)@ == old(s)@ + dec_seq(n as int),
{
    if n < 10 {
        s.append(digit_str(n));
        proof {
            assert(s@ =~= old(s)@ + dec_seq(n as int));
        }
    } else if n < 100 {
        s.append(digit_str(n / 10));
        s.append(digit_str(n % 10));
        proof {
            assert(s@ =~= old(s)@ + dec_seq(n as int));
        }
    } else {
        s.append(digit_str(n / 100));
        s.append(digit_str((n / 10) % 10));
        s.append(digit_str(n % 10));
        proof {
            assert(s@ =~= old(s)@ + dec_seq(n as int));
        }
    }
}

/// Appends the two-digit hexadecimal rendering of a byte.
fn append_hex(s: &mut String, n: u8)
    ensures
        final(s)@ == old(s)@ + hex_seq(n as int),
{
    s.append(digit_str(n / 16));
    s.append(digit_str(n % 16));
    proof {
        assert(s@ =~= old(s)@ + hex_seq(n as int));
    }
}

impl Color {
    /// Packs four channel bytes into one color.
    pub fn new(r: u8, g: u8, b: u8, a: u8) -> (c: Self)
        ensures
            c.0 == pack_rgba(r, g, b, a),
    {
        Color(((a as u32) << 24) | ((r as u32) << 16) | ((g as u32) << 8) | (b as u32))
    }

    /// The red byte.
    pub fn r(&self) -> (v: u8)
        ensures
            v == red_of(self.0),
    {
        proof {
            let p = self.0;
            assert((p >> 16) & 0xFF < 256) by (bit_vector);
        }
        ((self.0 >> 16) & 0xFF) as u8
    }

    /// The green byte.
    pub fn g(&self) -> (v: u8)
        ensures
            v == green_of(self.0),
    {
        proof {
            let p = self.0;
            assert((p >> 8) & 0xFF < 256) by (bit_vector);
        }
        ((self.0 >> 8) & 0xFF) as u8
    }

    /// The blue byte.
    pub fn b(&self) -> (v: u8)
        ensures
            v == blue_of(self.0),
    {
        proof {
            let p = self.0;
            assert(p & 0xFF < 256) by (bit_vector);
        }
        (self.0 & 0xFF) as u8
    }

    /// The alpha byte.
    pub fn a(&self) -> (v: u8)
        ensures
            v == alpha_of(self.0),
    {
        proof {
            let p = self.0;
            assert((p >> 24) & 0xFF < 256) by (bit_vector);
        }
        ((self.0 >> 24) & 0xFF) as u8
    }

    /// A copy of this color with the alpha byte replaced.
    pub fn with_alpha(&self, alpha: u8) -> (c: Color)
        ensures
            c.0 == pack_rgba(red_of(self.0), green_of(self.0), blue_of(self.0), alpha),
    {
        Color::new(self.r(), self.g(), self.b(), alpha)
    }

    /// Converts a hue (in degrees, wrapped modulo 360), a saturation and a
    /// value (bytes, 255 standing for one) to a packed color, by the
    /// six-sector piecewise formula.  The alpha byte of the result is 255.
    pub fn hsv_to_rgb(h: u32, s: u8, v: u8) -> (c: Color)
        ensures
            c.0 == hsv_color(h, s, v),
    {
        proof {
            assert(v as int * s as int <= 255 * 255) by (nonlinear_arith)
                requires s as int <= 255 && 0 <= v as int <= 255;
            vstd::arithmetic::div_mod::lemma_div_is_ordered(v as int * s as int, (255 * 255) as int, 255);
            assert(v as int * s as int <= v as int * 255) by (nonlinear_arith)
                requires s as int <= 255 && 0 <= v as int;
            vstd::arithmetic::div_mod::lemma_div_is_ordered(
                v as int * s as int,
                v as int * 255,
                255,
            );
            vstd::arithmetic::div_mod::lemma_div_by_multiple(v as int, 255);
        }
        let cc: u32 = (v as u32 * s as u32) / 255;
        let hm: u32 = h % 120;
        let tri: u32 = if hm < 60 {
            hm
        } else {
            120 - hm
        };
        proof {
            assert(cc as int * tri as int <= 255 * 60) by (nonlinear_arith)
                requires tri as int <= 60 && 0 <= cc as int <= 255;
            vstd::arithmetic::div_mod::lemma_div_is_ordered(cc as int * tri as int, (255 * 60) as int, 60);
        }
        let x: u32 = (cc * tri) / 60;
        let m: u32 = v as u32 - cc;
        let sector: u32 = (h % 360) / 60;
        let (r, g, b): (u32, u32, u32) = if sector == 0 {
            (cc, x, 0)
        } else if sector == 1 {
            (x, cc, 0)
        } else if sector == 2 {
            (0, cc, x)
        } else if sector == 3 {
            (0, x, cc)
        } else if sector == 4 {
            (x, 0, cc)
        } else {
            (cc, 0, x)
        };
        Color::new((r + m) as u8, (g + m) as u8, (b + m) as u8, 255)
    }

    /// Renders the color as a human-readable string: decimal channel
    /// values, or a hexadecimal RGB triple, by the chosen format.
    pub fn fmt_debug(&self, format: ColorFormat) -> (s: String)
        ensures
            (format is Rgba ==> s@ == rgba_debug_seq(self.0)),
            (format is RGBHex ==> s@ == hex_debug_seq(self.0)),
    {
        match format {
            ColorFormat::Rgba => {
                proof {
                    reveal_strlit("Color(r: ");
                    reveal_strlit(", g: ");
                    reveal_strlit(", b: ");
                    reveal_strlit(", a: ");
                    reveal_strlit(")");
                }
                let mut s = String::new();
                s.append("Color(r: ");
                append_dec(&mut s, self.r());
                s.append(", g: ");
                append_dec(&mut s, self.g());
                s.append(", b: ");
                append_dec(&mut s, self.b());
                s.append(", a: ");
                append_dec(&mut s, self.a());
                s.append(")");
                proof {
                    assert(s@ =~= rgba_debug_seq(self.0));
                }
                s
            }
            ColorFormat::RGBHex => {
                proof {
                    reveal_strlit("Color(#");
                    reveal_strlit(")");
                }
                let mut s = String::new();
                s.append("Color(#");
                append_hex(&mut s, self.r());
                append_hex(&mut s, self.g());
                append_hex(&mut s, self.b());
                s.append(")");
                proof {
                    assert(s@ =~= hex_debug_seq(self.0));
                }
                s
            }
        }
    }
}

} // verus!
