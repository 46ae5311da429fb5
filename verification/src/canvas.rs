//! A canvas that draws into a borrowed buffer of packed pixels, row by row.

use vstd::prelude::*;
use crate::color::Color;

verus! {

/// A `width` × `height` image whose rows start every `stride` pixels in
/// `pixels`; the pixel `(x, y)` is `pixels[y * stride + x]`.
pub struct Canvas<'a> {
    pub pixels: &'a mut [u32],
    pub width: u32,
    pub height: u32,
    pub stride: u32,
}

impl<'a> Canvas<'a> {
    /// The packed pixels of the buffer.
    pub open spec fn buffer(&self) -> Seq<u32> {
        self.pixels@
    }

    /// Position in the buffer of the pixel `(x, y)`.
    pub open spec fn index_of(&self, x: int, y: int) -> int {
        y * self.stride + x
    }

    /// `(x, y)` lies inside the image.
    pub open spec fn contains(&self, x: int, y: int) -> bool {
        0 <= x < self.width && 0 <= y < self.height
    }

    /// `(x, y)` passes the drawing routines' bounds test, which compares with
    /// the width and height read as `i32`; such a pixel lies inside the image.
    pub open spec fn visible(&self, x: int, y: int) -> bool {
        0 <= x < self.width as i32 && 0 <= y < self.height as i32
    }

    /// Every pixel inside the image has its place in the buffer.
    pub open spec fn addressable(&self) -> bool {
        self.width == 0 || self.height == 0 || (self.height - 1) * self.stride + self.width - 1
            < self.buffer().len()
    }

    /// The pixels inside the image lie in the buffer of an addressable canvas.
    pub proof fn lemma_index_in_buffer(&self, x: int, y: int)
        requires
            self.addressable(),
            self.contains(x, y),
        ensures
            0 <= self.index_of(x, y) < self.buffer().len(),
    {
        let (s, h) = (self.stride as int, self.height as int);
        assert(0 <= y * s <= (h - 1) * s) by (nonlinear_arith)
            requires
                0 <= y <= h - 1,
                0 <= s,
        ;
    }

    /// A canvas over `pixels`; the buffer must hold `width * height` pixels.
    pub fn from_raw_pixels(pixels: &'a mut [u32], width: usize, height: usize, stride: usize) -> (c:
        Canvas<'a>)
        requires
            width * height <= usize::MAX,
            old(pixels)@.len() >= width * height,
            width <= i32::MAX,
            height <= i32::MAX,
            stride <= u32::MAX,
        ensures
            c.buffer() == old(pixels)@,
            c.width == width,
            c.height == height,
            c.stride == stride,
            final(pixels)@ == final(c.pixels)@,
    {
        Canvas { pixels, width: width as u32, height: height as u32, stride: stride as u32 }
    }

    /// Sets the first `height` rows, `stride` pixels each, to `color`.
    pub fn clear(&mut self, color: Color)
        requires
            old(self).height * old(self).stride <= old(self).buffer().len(),
        ensures
            final(self).width == old(self).width,
            final(self).height == old(self).height,
            final(self).stride == old(self).stride,
            final(self).buffer().len() == old(self).buffer().len(),
            forall|i: int|
                0 <= i < old(self).buffer().len() ==> #[trigger] final(self).buffer()[i] == if i
                    < old(self).height * old(self).stride {
                    color@
                } else {
                    old(self).buffer()[i]
                },
    {
        // The buffer's length, a `usize`, bounds the index arithmetic below.
        let _len = self.pixels.len();
        let end = self.height as usize * self.stride as usize;
        let value = color.as_u32();
        let mut i: usize = 0;
        while i < end
            invariant
                end == old(self).height * old(self).stride,
                end <= self.buffer().len(),
                i <= end,
                value == color@,
                self.width == old(self).width,
                self.height == old(self).height,
                self.stride == old(self).stride,
                self.buffer().len() == old(self).buffer().len(),
                forall|j: int|
                    0 <= j < old(self).buffer().len() ==> #[trigger] self.buffer()[j] == if j < i {
                        color@
                    } else {
                        old(self).buffer()[j]
                    },
            decreases end - i,
        {
            self.pixels[i] = value;
            i += 1;
        }
    }

    /// Whether every pixel inside the image has its place in the buffer, as
    /// the drawing routines need.
    pub fn addresses_all(&self) -> (b: bool)
        ensures
            b == self.addressable(),
    {
        if self.width == 0 || self.height == 0 {
            return true;
        }
        let rows = self.height as u64 - 1;
        let stride = self.stride as u64;
        proof {
            assert(rows * stride <= 0xffff_ffff * 0xffff_ffff) by (nonlinear_arith)
                requires
                    rows <= 0xffff_ffff,
                    stride <= 0xffff_ffff,
            ;
        }
        let last = rows * stride + self.width as u64 - 1;
        last < self.pixels.len() as u64
    }

    /// The width as a signed number.
    pub fn width(&self) -> (w: i32)
        ensures
            w == self.width as i32,
    {
        self.width as i32
    }

    /// The height as a signed number.
    pub fn height(&self) -> (h: i32)
        ensures
            h == self.height as i32,
    {
        self.height as i32
    }

    /// The color of the pixel `(x, y)`.
    pub fn at(&self, x: i32, y: i32) -> (c: Color)
        requires
            self.contains(x as int, y as int),
            self.index_of(x as int, y as int) < self.buffer().len(),
        ensures
            c@ == self.buffer()[self.index_of(x as int, y as int)],
    {
        proof {
            assert(0 <= y * self.stride) by (nonlinear_arith)
                requires
                    0 <= y,
            ;
        }
        // The buffer's length, a `usize`, bounds the index arithmetic below.
        let _len = self.pixels.len();
        Color::new(self.pixels[y as usize * self.stride as usize + x as usize])
    }

    /// The packed pixel `(x, y)`, to read or to overwrite.
    pub fn at_mut(&mut self, x: i32, y: i32) -> (p: &mut u32)
        requires
            old(self).contains(x as int, y as int),
            old(self).index_of(x as int, y as int) < old(self).buffer().len(),
        ensures
            *p == old(self).buffer()[old(self).index_of(x as int, y as int)],
            final(self).buffer() == old(self).buffer().update(
                old(self).index_of(x as int, y as int),
                *final(p),
            ),
            final(self).width == old(self).width,
            final(self).height == old(self).height,
            final(self).stride == old(self).stride,
    {
        proof {
            assert(0 <= y * self.stride) by (nonlinear_arith)
                requires
                    0 <= y,
            ;
        }
        // The buffer's length, a `usize`, bounds the index arithmetic below.
        let _len = self.pixels.len();
        let i = y as usize * self.stride as usize + x as usize;
        &mut self.pixels[i]
    }
}

/// Writing a pixel of the image changes that pixel alone: reading it back
/// gives the written value, and every other pixel of the image reads as
/// before, as long as rows do not overlap (`width <= stride`).
pub proof fn write_then_read(before: &Canvas, after: &Canvas, x: int, y: int, v: u32, x2: int, y2: int)
    requires
        before.addressable(),
        before.contains(x, y),
        before.contains(x2, y2),
        before.width <= before.stride,
        after.width == before.width,
        after.height == before.height,
        after.stride == before.stride,
        after.buffer() == before.buffer().update(before.index_of(x, y), v),
    ensures
        after.buffer()[after.index_of(x, y)] == v,
        (x2, y2) != (x, y) ==> after.buffer()[after.index_of(x2, y2)] == before.buffer()[before.index_of(
            x2,
            y2,
        )],
{
    before.lemma_index_in_buffer(x, y);
    before.lemma_index_in_buffer(x2, y2);
    if (x2, y2) != (x, y) {
        let s = before.stride as int;
        if y2 == y {
            assert(before.index_of(x2, y2) != before.index_of(x, y));
        } else if y2 < y {
            assert(y2 * s + x2 < y * s + x) by (nonlinear_arith)
                requires
                    y2 + 1 <= y,
                    0 <= x2 < s,
                    0 <= x,
            {
                assert(y2 * s + s <= y * s) by (nonlinear_arith)
                    requires
                        y2 + 1 <= y,
                        0 <= s,
                ;
            }
        } else {
            assert(y * s + x < y2 * s + x2) by (nonlinear_arith)
                requires
                    y + 1 <= y2,
                    0 <= x < s,
                    0 <= x2,
            {
                assert(y * s + s <= y2 * s) by (nonlinear_arith)
                    requires
                        y + 1 <= y2,
                        0 <= s,
                ;
            }
        }
    }
}

} // verus!
