//! Packed 32-bit ARGB colors (alpha in the top byte, then red, green, blue).

use vstd::prelude::*;

pub mod colors;

verus! {

/// Value of the alpha byte of a packed color.
pub open spec fn alpha_of(v: u32) -> int {
    v as int / 0x1000000
}

/// Value of the red byte of a packed color.
pub open spec fn red_of(v: u32) -> int {
    (v as int / 0x10000) % 0x100
}

/// Value of the green byte of a packed color.
pub open spec fn green_of(v: u32) -> int {
    (v as int / 0x100) % 0x100
}

/// Value of the blue byte of a packed color.
pub open spec fn blue_of(v: u32) -> int {
    v as int % 0x100
}

/// The packed value of the four channels.
pub open spec fn pack(red: int, green: int, blue: int, alpha: int) -> int {
    alpha * 0x1000000 + red * 0x10000 + green * 0x100 + blue
}

/// The packed value with its alpha byte replaced.
pub open spec fn with_alpha_of(v: u32, alpha: int) -> int {
    v as int % 0x1000000 + alpha * 0x1000000
}

/// One channel of a blend: the `a`-weighted mix of `over` onto `under`,
/// divided down to the byte range and capped at 255.
pub open spec fn mix(under: int, over: int, a: int) -> int {
    let m = (under * (255 - a) + over * a) / 255;
    if m > 255 { 255 } else { m }
}

/// The packed value of `under` blended with `over`: each color channel is
/// mixed by the alpha of `over`, the alpha of `under` is kept.
pub open spec fn blend_of(under: u32, over: u32) -> int {
    pack(
        mix(red_of(under), red_of(over), alpha_of(over)),
        mix(green_of(under), green_of(over), alpha_of(over)),
        mix(blue_of(under), blue_of(over), alpha_of(over)),
        alpha_of(under),
    )
}

/// A color packed into 32 bits as `0xAARRGGBB`.
#[derive(Clone, Copy, PartialEq, Eq, Structural, Debug)]
pub struct Color(u32);

impl View for Color {
    type V = u32;

    closed spec fn view(&self) -> u32 {
        self.0
    }
}

proof fn lemma_unpack(v: u32)
    ensures
        (v >> 24u32) as u8 == alpha_of(v),
        (v >> 16u32) as u8 == red_of(v),
        (v >> 8u32) as u8 == green_of(v),
        v as u8 == blue_of(v),
        v & 0x00FFFFFFu32 == v % 0x1000000,
{
    assert((v >> 24u32) as u8 == v / 0x1000000) by (bit_vector);
    assert((v >> 16u32) as u8 == (v / 0x10000) % 0x100) by (bit_vector);
    assert((v >> 8u32) as u8 == (v / 0x100) % 0x100) by (bit_vector);
    assert(v as u8 == v % 0x100) by (bit_vector);
    assert(v & 0x00FFFFFFu32 == v % 0x1000000) by (bit_vector);
}

proof fn lemma_pack(r: u8, g: u8, b: u8, a: u8)
    ensures
        ((a as u32) << 24u32 | (r as u32) << 16u32 | (g as u32) << 8u32 | b as u32) as int
            == pack(r as int, g as int, b as int, a as int),
{
    let (r32, g32, b32, a32) = (r as u32, g as u32, b as u32, a as u32);
    assert(r32 < 256 && g32 < 256 && b32 < 256 && a32 < 256);
    assert(a32 << 24u32 | r32 << 16u32 | g32 << 8u32 | b32
        == a32 * 0x1000000 + r32 * 0x10000 + g32 * 0x100 + b32) by (bit_vector)
        requires
            r32 < 256,
            g32 < 256,
            b32 < 256,
            a32 < 256,
    ;
}

proof fn lemma_replace_alpha(v: u32, a: u8)
    ensures
        ((v & 0x00FFFFFFu32) | (a as u32) << 24u32) as int == with_alpha_of(v, a as int),
{
    let a32 = a as u32;
    assert((v & 0x00FFFFFFu32) | a32 << 24u32 == v % 0x1000000 + a32 * 0x1000000) by (bit_vector)
        requires
            a32 < 256,
    ;
}

impl Color {
    /// The color whose packed value is `color`.
    pub fn new(color: u32) -> (c: Color)
        ensures
            c@ == color,
    {
        Color(color)
    }

    /// The color with the given channels.
    pub fn from_rgba(red: u8, green: u8, blue: u8, alpha: u8) -> (c: Color)
        ensures
            c@ as int == pack(red as int, green as int, blue as int, alpha as int),
    {
        proof {
            lemma_pack(red, green, blue, alpha);
        }
        Color((alpha as u32) << 24u32 | (red as u32) << 16u32 | (green as u32) << 8u32 | blue as u32)
    }

    /// The alpha channel.
    pub fn alpha(self) -> (a: u8)
        ensures
            a == alpha_of(self@),
    {
        proof {
            lemma_unpack(self.0);
        }
        (self.0 >> 24u32) as u8
    }

    /// The red channel.
    pub fn red(self) -> (r: u8)
        ensures
            r == red_of(self@),
    {
        proof {
            lemma_unpack(self.0);
        }
        (self.0 >> 16u32) as u8
    }

    /// The green channel.
    pub fn green(self) -> (g: u8)
        ensures
            g == green_of(self@),
    {
        proof {
            lemma_unpack(self.0);
        }
        (self.0 >> 8u32) as u8
    }

    /// The blue channel.
    pub fn blue(self) -> (b: u8)
        ensures
            b == blue_of(self@),
    {
        proof {
            lemma_unpack(self.0);
        }
        self.0 as u8
    }

    /// The same color with its alpha channel replaced by `alpha`.
    pub fn with_alpha(self, alpha: u8) -> (c: Self)
        ensures
            c@ as int == with_alpha_of(self@, alpha as int),
    {
        proof {
            lemma_replace_alpha(self.0, alpha);
        }
        Color((self.0 & 0x00FFFFFFu32) | (alpha as u32) << 24u32)
    }

    /// `other` laid over `self`: every color channel is mixed by the alpha of
    /// `other`, and the result keeps the alpha of `self`.
    pub fn blend(self, other: Color) -> (c: Color)
        ensures
            c@ as int == blend_of(self@, other@),
    {
        let a1 = self.alpha();
        let r1 = self.red() as u32;
        let g1 = self.green() as u32;
        let b1 = self.blue() as u32;

        let a2 = other.alpha() as u32;
        let r2 = other.red() as u32;
        let g2 = other.green() as u32;
        let b2 = other.blue() as u32;

        let r = mix_channel(r1, r2, a2);
        let g = mix_channel(g1, g2, a2);
        let b = mix_channel(b1, b2, a2);

        Color::from_rgba(r, g, b, a1)
    }

    /// The packed value.
    pub fn as_u32(self) -> (v: u32)
        ensures
            v == self@,
    {
        self.0
    }
}

fn mix_channel(under: u32, over: u32, a: u32) -> (m: u8)
    requires
        under < 256,
        over < 256,
        a < 256,
    ensures
        m == mix(under as int, over as int, a as int),
{
    assert(under * (255 - a) <= 255 * 255) by (nonlinear_arith)
        requires
            under < 256,
            a < 256,
    ;
    assert(over * a <= 255 * 255) by (nonlinear_arith)
        requires
            over < 256,
            a < 256,
    ;
    let v = (under * (255 - a) + over * a) / 255;
    let capped = if v > 255 { 255 } else { v };
    capped as u8
}

/// Packing four channels and reading them back gives the same four channels.
pub proof fn channels_of_pack(red: u8, green: u8, blue: u8, alpha: u8)
    ensures
        0 <= pack(red as int, green as int, blue as int, alpha as int) <= u32::MAX,
        ({
            let v = pack(red as int, green as int, blue as int, alpha as int) as u32;
            &&& red_of(v) == red
            &&& green_of(v) == green
            &&& blue_of(v) == blue
            &&& alpha_of(v) == alpha
        }),
{
    let (r, g, b, a) = (red as u32, green as u32, blue as u32, alpha as u32);
    assert(a * 0x1000000 + r * 0x10000 + g * 0x100 + b <= 0xFFFFFFFFu32) by (nonlinear_arith)
        requires
            r < 256,
            g < 256,
            b < 256,
            a < 256,
    ;
    let v = (a * 0x1000000 + r * 0x10000 + g * 0x100 + b) as u32;
    assert(v / 0x1000000 == a && (v / 0x10000) % 0x100 == r && (v / 0x100) % 0x100 == g && v
        % 0x100 == b) by (bit_vector)
        requires
            r < 256,
            g < 256,
            b < 256,
            a < 256,
            v == a * 0x1000000 + r * 0x10000 + g * 0x100 + b,
    ;
}

/// Every packed value is the packing of its own four channels.
pub proof fn pack_of_channels(v: u32)
    ensures
        pack(red_of(v), green_of(v), blue_of(v), alpha_of(v)) == v,
{
    assert(v == (v / 0x1000000) * 0x1000000 + ((v / 0x10000) % 0x100) * 0x10000 + ((v / 0x100)
        % 0x100) * 0x100 + v % 0x100) by (bit_vector);
}

/// Replacing the alpha byte sets alpha to the new value and keeps the three
/// color channels; replacing it twice is the same as replacing it once with
/// the second value.
pub proof fn with_alpha_laws(v: u32, alpha: u8, second: u8)
    ensures
        0 <= with_alpha_of(v, alpha as int) <= u32::MAX,
        ({
            let w = with_alpha_of(v, alpha as int) as u32;
            &&& alpha_of(w) == alpha
            &&& red_of(w) == red_of(v)
            &&& green_of(w) == green_of(v)
            &&& blue_of(w) == blue_of(v)
            &&& with_alpha_of(w, second as int) == with_alpha_of(v, second as int)
        }),
{
    let a = alpha as u32;
    let b = second as u32;
    assert(v % 0x1000000 + a * 0x1000000 <= 0xFFFFFFFFu32) by (bit_vector)
        requires
            a < 256,
    ;
    let w = (v % 0x1000000 + a * 0x1000000) as u32;
    assert(w / 0x1000000 == a && (w / 0x10000) % 0x100 == (v / 0x10000) % 0x100 && (w / 0x100)
        % 0x100 == (v / 0x100) % 0x100 && w % 0x100 == v % 0x100 && w % 0x1000000 == v
        % 0x1000000) by (bit_vector)
        requires
            a < 256,
            w == v % 0x1000000 + a * 0x1000000,
    ;
}

/// A mixed channel lies between the two channels it mixes.
pub proof fn mix_between(under: u8, over: u8, a: u8)
    ensures
        (under <= over ==> under <= mix(under as int, over as int, a as int) <= over),
        (over <= under ==> over <= mix(under as int, over as int, a as int) <= under),
{
    let (u, o, w) = (under as int, over as int, a as int);
    assert(u <= o ==> u * 255 <= u * (255 - w) + o * w <= o * 255) by (nonlinear_arith)
        requires
            0 <= w <= 255,
    ;
    assert(o <= u ==> o * 255 <= u * (255 - w) + o * w <= u * 255) by (nonlinear_arith)
        requires
            0 <= w <= 255,
    ;
    let s = u * (255 - w) + o * w;
    assert(u <= o ==> u <= s / 255 <= o) by (nonlinear_arith)
        requires
            u <= o ==> u * 255 <= s <= o * 255,
    ;
    assert(o <= u ==> o <= s / 255 <= u) by (nonlinear_arith)
        requires
            o <= u ==> o * 255 <= s <= u * 255,
    ;
}

/// Blending keeps the alpha of the color underneath; an opaque color on top
/// replaces the three color channels; a fully transparent color on top
/// leaves the color underneath unchanged.
pub proof fn blend_laws(under: u32, over: u32)
    ensures
        0 <= blend_of(under, over) <= u32::MAX,
        alpha_of(blend_of(under, over) as u32) == alpha_of(under),
        alpha_of(over) == 255 ==> {
            let c = blend_of(under, over) as u32;
            &&& red_of(c) == red_of(over)
            &&& green_of(c) == green_of(over)
            &&& blue_of(c) == blue_of(over)
        },
        alpha_of(over) == 0 ==> blend_of(under, over) == under,
{
    pack_of_channels(under);
    pack_of_channels(over);
    let a = alpha_of(over);
    assert(0 <= a <= 255);
    let (r1, g1, b1) = (red_of(under) as u8, green_of(under) as u8, blue_of(under) as u8);
    let (r2, g2, b2) = (red_of(over) as u8, green_of(over) as u8, blue_of(over) as u8);
    mix_between(r1, r2, a as u8);
    mix_between(g1, g2, a as u8);
    mix_between(b1, b2, a as u8);
    let r = mix(r1 as int, r2 as int, a);
    let g = mix(g1 as int, g2 as int, a);
    let b = mix(b1 as int, b2 as int, a);
    channels_of_pack(r as u8, g as u8, b as u8, alpha_of(under) as u8);
    if a == 255 {
        assert(r == r2 as int) by (nonlinear_arith)
            requires
                r == mix(r1 as int, r2 as int, a),
                a == 255,
                0 <= r2 <= 255,
        ;
        assert(g == g2 as int) by (nonlinear_arith)
            requires
                g == mix(g1 as int, g2 as int, a),
                a == 255,
                0 <= g2 <= 255,
        ;
        assert(b == b2 as int) by (nonlinear_arith)
            requires
                b == mix(b1 as int, b2 as int, a),
                a == 255,
                0 <= b2 <= 255,
        ;
    }
    if a == 0 {
        assert(r == r1 as int) by (nonlinear_arith)
            requires
                r == mix(r1 as int, r2 as int, a),
                a == 0,
                0 <= r1 <= 255,
        ;
        assert(g == g1 as int) by (nonlinear_arith)
            requires
                g == mix(g1 as int, g2 as int, a),
                a == 0,
                0 <= g1 <= 255,
        ;
        assert(b == b1 as int) by (nonlinear_arith)
            requires
                b == mix(b1 as int, b2 as int, a),
                a == 0,
                0 <= b1 <= 255,
        ;
    }
}

} // verus!
