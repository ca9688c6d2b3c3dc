//! The pixel grid accessor: a 2D grid of RGBA samples with read and write
//! access to single channel values at a (column, row) position.

use vstd::prelude::*;

verus! {

/// Channel index of the red sample within a pixel.
pub const RED: usize = 0;

/// Channel index of the green sample within a pixel.
pub const GREEN: usize = 1;

/// Channel index of the blue sample within a pixel.
pub const BLUE: usize = 2;

/// Channel index of the alpha sample within a pixel.
pub const ALPHA: usize = 3;

/// A 2D grid of RGBA pixels, four 8-bit channel samples per pixel, stored
/// row-major with the channels of one pixel interleaved.
///
/// Dimensions are fixed when the grid is made and never change afterwards.
pub struct PixelGrid {
    pub width: u32,
    pub height: u32,
    pub data: Vec<u8>,
}

impl PixelGrid {
    /// The grid holds exactly four bytes for every pixel.
    pub open spec fn wf(&self) -> bool {
        self.data@.len() == 4 * (self.width as int) * (self.height as int)
    }

    /// Byte offset of channel `ch` of the pixel at (`col`, `row`) in a grid
    /// of the given width.
    pub open spec fn spec_offset(width: int, col: int, row: int, ch: int) -> int {
        4 * (row * width + col) + ch
    }

    /// The value of channel `ch` of the pixel at (`col`, `row`).
    pub open spec fn spec_channel(&self, col: int, row: int, ch: int) -> u8 {
        self.data@[Self::spec_offset(self.width as int, col, row, ch)]
    }

    /// The blue sample of the pixel at (`col`, `row`).
    pub open spec fn spec_blue(&self, col: int, row: int) -> u8 {
        self.spec_channel(col, row, BLUE as int)
    }

    /// The byte offset of an in-range position lies within a buffer of
    /// the matching size.
    pub proof fn lemma_offset_bounds(width: int, height: int, len: int, col: int, row: int, ch: int)
        requires
            len == 4 * width * height,
            0 <= col < width,
            0 <= row < height,
            0 <= ch < 4,
        ensures
            0 <= row * width,
            4 * (row * width + col) + 4 <= len,
            0 <= Self::spec_offset(width, col, row, ch) < len,
            Self::spec_offset(width, col, row, ch) + 4 - ch <= len,
    {
        let w = width;
        let h = height;
        assert(row * w + col < h * w) by (nonlinear_arith)
            requires 0 <= col < w && 0 <= row < h,
        ;
        assert(4 * (row * w + col) + 4 <= 4 * (h * w)) by (nonlinear_arith)
            requires row * w + col < h * w,
        ;
        assert(4 * w * h == 4 * (h * w)) by (nonlinear_arith);
        assert(0 <= 4 * (row * w + col)) by (nonlinear_arith)
            requires 0 <= col && 0 <= row && 0 <= w,
        ;
    }

    /// The byte offset of an in-range position lies within the data buffer.
    pub proof fn lemma_offset_in_range(&self, col: int, row: int, ch: int)
        requires
            self.wf(),
            0 <= col < self.width,
            0 <= row < self.height,
            0 <= ch < 4,
        ensures
            0 <= row * (self.width as int),
            4 * (row * (self.width as int) + col) + 4 <= self.data@.len(),
            0 <= Self::spec_offset(self.width as int, col, row, ch) < self.data@.len(),
            Self::spec_offset(self.width as int, col, row, ch) + 4 - ch
                <= self.data@.len(),
    {
        Self::lemma_offset_bounds(
            self.width as int,
            self.height as int,
            self.data@.len() as int,
            col,
            row,
            ch,
        );
    }

    /// Two distinct in-range (column, row, channel) positions have distinct
    /// byte offsets.
    pub proof fn lemma_offset_injective(width: int, c1: int, r1: int, ch1: int,
        c2: int, r2: int, ch2: int)
        requires
            0 <= c1 < width,
            0 <= c2 < width,
            0 <= r1,
            0 <= r2,
            0 <= ch1 < 4,
            0 <= ch2 < 4,
            (c1, r1, ch1) != (c2, r2, ch2),
        ensures
            Self::spec_offset(width, c1, r1, ch1) != Self::spec_offset(width, c2, r2, ch2),
    {
        assert(r1 * width + c1 != r2 * width + c2 || (r1 == r2 && c1 == c2))
            by (nonlinear_arith)
            requires 0 <= c1 < width && 0 <= c2 < width && 0 <= r1 && 0 <= r2,
        ;
    }

    /// A grid of the given dimensions with every sample zero.
    pub fn new(width: u32, height: u32) -> (g: PixelGrid)
        requires
            4 * (width as int) * (height as int) <= usize::MAX,
        ensures
            g.wf(),
            g.width == width,
            g.height == height,
            forall|i: int| 0 <= i < g.data@.len() ==> g.data@[i] == 0u8,
    {
        proof {
            assert(0 <= (width as int) * (height as int) && 4 * ((width as int) * (height as int))
                == 4 * (width as int) * (height as int)) by (nonlinear_arith);
        }
        let wh: usize = (width as usize) * (height as usize);
        let n: usize = 4 * wh;
        let data: Vec<u8> = vec![0u8; n];
        PixelGrid { width, height, data }
    }

    /// Makes a grid out of raw interleaved RGBA bytes, provided the buffer
    /// length matches the dimensions exactly.
    pub fn from_raw(width: u32, height: u32, data: Vec<u8>) -> (r: Option<PixelGrid>)
        ensures
            match r {
                Some(g) => {
                    &&& g.wf()
                    &&& g.width == width
                    &&& g.height == height
                    &&& g.data@ == data@
                    &&& data@.len() == 4 * (width as int) * (height as int)
                },
                None => data@.len() != 4 * (width as int) * (height as int),
            },
    {
        proof {
            assert(0 <= (width as int) * (height as int) <= 0xffff_ffff * 0xffff_ffff)
                by (nonlinear_arith)
                requires
                    0 <= width as int <= 0xffff_ffff && 0 <= height as int <= 0xffff_ffff,
            ;
            assert(4 * ((width as int) * (height as int)) == 4 * (width as int) * (height as int))
                by (nonlinear_arith);
        }
        let wh: u128 = (width as u128) * (height as u128);
        let expected: u128 = 4 * wh;
        if (data.len() as u128) == expected {
            Some(PixelGrid { width, height, data })
        } else {
            None
        }
    }

    /// Gives the raw interleaved RGBA bytes back.
    pub fn into_raw(self) -> (r: Vec<u8>)
        ensures
            r@ == self.data@,
    {
        self.data
    }

    pub fn width(&self) -> (w: u32)
        ensures
            w == self.width,
    {
        self.width
    }

    pub fn height(&self) -> (h: u32)
        ensures
            h == self.height,
    {
        self.height
    }

    /// The byte index of channel `ch` of the pixel at (`col`, `row`).
    fn offset_of(&self, col: u32, row: u32, ch: usize) -> (idx: usize)
        requires
            self.wf(),
            col < self.width,
            row < self.height,
            ch < 4,
        ensures
            idx == Self::spec_offset(self.width as int, col as int, row as int, ch as int),
            idx + (4 - ch) <= self.data@.len(),
    {
        proof {
            self.lemma_offset_in_range(col as int, row as int, ch as int);
        }
        // seen as a machine size, the buffer length bounds the index arithmetic
        let _len: usize = self.data.len();
        4 * ((row as usize) * (self.width as usize) + (col as usize)) + ch
    }

    /// Reads one channel sample of the pixel at (`col`, `row`).
    pub fn channel(&self, col: u32, row: u32, ch: usize) -> (v: u8)
        requires
            self.wf(),
            col < self.width,
            row < self.height,
            ch < 4,
        ensures
            v == self.spec_channel(col as int, row as int, ch as int),
    {
        let idx: usize = self.offset_of(col, row, ch);
        self.data[idx]
    }

    /// Reads the blue sample of the pixel at (`col`, `row`).
    pub fn blue(&self, col: u32, row: u32) -> (v: u8)
        requires
            self.wf(),
            col < self.width,
            row < self.height,
        ensures
            v == self.spec_blue(col as int, row as int),
    {
        self.channel(col, row, BLUE)
    }

    /// Overwrites the blue sample of the pixel at (`col`, `row`); every
    /// other byte of the grid is untouched.
    pub fn set_blue(&mut self, col: u32, row: u32, v: u8)
        requires
            old(self).wf(),
            col < old(self).width,
            row < old(self).height,
        ensures
            final(self).wf(),
            final(self).width == old(self).width,
            final(self).height == old(self).height,
            final(self).data@ == old(self).data@.update(
                Self::spec_offset(old(self).width as int, col as int, row as int, BLUE as int),
                v,
            ),
    {
        let idx: usize = self.offset_of(col, row, BLUE);
        self.data[idx] = v;
    }

    /// Overwrites all four channel samples of the pixel at (`col`, `row`).
    pub fn put_pixel(&mut self, col: u32, row: u32, red: u8, green: u8, blue: u8, alpha: u8)
        requires
            old(self).wf(),
            col < old(self).width,
            row < old(self).height,
        ensures
            final(self).wf(),
            final(self).width == old(self).width,
            final(self).height == old(self).height,
            final(self).data@ == old(self).data@
                .update(Self::spec_offset(old(self).width as int, col as int, row as int, RED as int), red)
                .update(Self::spec_offset(old(self).width as int, col as int, row as int, GREEN as int), green)
                .update(Self::spec_offset(old(self).width as int, col as int, row as int, BLUE as int), blue)
                .update(Self::spec_offset(old(self).width as int, col as int, row as int, ALPHA as int), alpha),
    {
        let idx: usize = self.offset_of(col, row, RED);
        self.data[idx] = red;
        self.data[idx + 1] = green;
        self.data[idx + 2] = blue;
        self.data[idx + 3] = alpha;
    }
}

} // verus!
