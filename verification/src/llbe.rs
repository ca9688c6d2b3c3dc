//! LLBE, the differential blue-channel embedding scheme.
//!
//! One payload bit is carried by a pair of horizontally adjacent pixels:
//! the encoder overwrites the left blue sample with the right blue sample
//! minus the bit (wrapping 8-bit arithmetic), so the decoder recovers the
//! bit as the difference of the pair. The cursor steps two columns per bit
//! and wraps to the next row when fewer than two columns remain. Each
//! character is embedded least-significant bit first, while the decoder
//! accumulates bits as if they came most-significant first; the corrected
//! byte is therefore the accumulator's low byte with its bits reversed.

use vstd::prelude::*;
use vstd::arithmetic::div_mod::{
    lemma_basic_div_specific_divisor, lemma_div_pos_is_pos, lemma_fundamental_div_mod,
    lemma_fundamental_div_mod_converse, lemma_mod_division_less_than_divisor,
    lemma_multiply_divide_lt, lemma_small_mod,
};
use vstd::string::StrSliceExecFns;
use crate::algorithm::{CapacityError, Decoder, Encoder};
use crate::grid::{PixelGrid, BLUE};
use crate::parser::Configuration;

verus! {

/// The noise-rejection threshold: a corrected byte above this value is
/// treated as non-payload noise and ends a decode scan.
pub const NOISE_THRESHOLD: u32 = 200;

/// The differential blue-channel codec, with its carrier grid and the
/// cursor state of the scan in flight.
pub struct LLBE {
    pub config: Configuration,
    pub grid: PixelGrid,
    pub col: u32,
    pub row: u32,
    pub temp_bit_val: u32,
}

// ---------------------------------------------------------------------------
// The traversal, as mathematics: bit slot k of a grid lives in row
// k / row_bits(width) at columns (2 * (k % row_bits(width)), same + 1).
// ---------------------------------------------------------------------------

/// How many payload bits one row carries: the cursor consumes a pair of
/// columns per bit and needs both in range.
pub open spec fn row_bits(width: int) -> int {
    width / 2
}

/// How many payload bits the whole grid carries.
pub open spec fn capacity_bits(width: int, height: int) -> int {
    height * row_bits(width)
}

/// Left column of the pair that carries bit slot `k`.
pub open spec fn bit_col(width: int, k: int) -> int {
    2 * (k % row_bits(width))
}

/// Row of the pair that carries bit slot `k`.
pub open spec fn bit_row(width: int, k: int) -> int {
    k / row_bits(width)
}

/// Byte offset of the blue sample at (`col`, `row`).
pub open spec fn blue_offset(width: int, col: int, row: int) -> int {
    PixelGrid::spec_offset(width, col, row, BLUE as int)
}

/// Bit `k` of a payload, in embed order: characters in sequence order,
/// each truncated to eight bits and walked least-significant bit first.
pub open spec fn payload_bit(s: Seq<char>, k: int) -> u8 {
    ((s[k / 8] as u8) >> ((k % 8) as u8)) & 1
}

/// The carrier bytes after the first `n` payload bits are embedded: bit
/// slot `k` holds the original right-hand blue sample minus payload bit
/// `k`, with 8-bit wraparound; everything else keeps its original value.
pub open spec fn encode_bits(orig: Seq<u8>, width: int, s: Seq<char>, n: int) -> Seq<u8>
    decreases n,
{
    if n <= 0 {
        orig
    } else {
        let k = n - 1;
        encode_bits(orig, width, s, k).update(
            blue_offset(width, bit_col(width, k), bit_row(width, k)),
            orig[blue_offset(width, bit_col(width, k) + 1, bit_row(width, k))].wrapping_sub(
                payload_bit(s, k),
            ),
        )
    }
}

/// The cursor column after `k` bits from the grid origin. The wrap is
/// lazy: right after filling a row, the cursor rests one step past the
/// row's last pair and only moves down when the next bit is processed.
pub open spec fn cursor_col(width: int, k: int) -> int {
    if k <= 0 {
        0
    } else {
        2 * ((k - 1) % row_bits(width)) + 2
    }
}

/// The cursor row after `k` bits from the grid origin.
pub open spec fn cursor_row(width: int, k: int) -> int {
    if k <= 0 {
        0
    } else {
        (k - 1) / row_bits(width)
    }
}

/// The column a bit operation works at, after the lazy row wrap.
pub open spec fn step_col(width: int, height: int, col: int, row: int) -> int {
    if col + 1 >= width && row + 1 < height {
        0
    } else {
        col
    }
}

/// The row a bit operation works at, after the lazy row wrap.
pub open spec fn step_row(width: int, height: int, col: int, row: int) -> int {
    if col + 1 >= width && row + 1 < height {
        row + 1
    } else {
        row
    }
}

// ---------------------------------------------------------------------------
// The decode scan, as mathematics.
// ---------------------------------------------------------------------------

/// The differential value one pair yields: the right blue sample minus the
/// left one, as a signed difference reinterpreted in 32 bits.
pub open spec fn diff_val(g: Seq<u8>, width: int, col: int, row: int) -> u32 {
    let d = g[blue_offset(width, col + 1, row)] - g[blue_offset(width, col, row)];
    if d >= 0 {
        d as u32
    } else {
        (d + 0x1_0000_0000) as u32
    }
}

/// The cursor column after one decode step.
pub open spec fn tick_col(width: int, height: int, col: int, row: int) -> int {
    if col + 1 < width {
        col + 2
    } else if row + 1 < height {
        2
    } else {
        col
    }
}

/// The cursor row after one decode step.
pub open spec fn tick_row(width: int, height: int, col: int, row: int) -> int {
    if col + 1 < width {
        row
    } else if row + 1 < height {
        row + 1
    } else {
        row
    }
}

/// The differential value after one decode step. At the right edge of the
/// last row nothing is read and the previous value is kept.
pub open spec fn tick_val(g: Seq<u8>, width: int, height: int, col: int, row: int, tbv: u32) -> u32 {
    if col + 1 < width {
        diff_val(g, width, col, row)
    } else if row + 1 < height {
        diff_val(g, width, 0, row + 1)
    } else {
        tbv
    }
}

/// `n` decode steps folding differential values into an accumulator, each
/// step shifting the accumulator left once and or-ing the new value in.
/// Returns (accumulator, column, row, differential value).
pub open spec fn dec_byte(
    g: Seq<u8>,
    width: int,
    height: int,
    col: int,
    row: int,
    tbv: u32,
    c: u32,
    n: nat,
) -> (u32, int, int, u32)
    decreases n,
{
    if n == 0 {
        (c, col, row, tbv)
    } else {
        let t = tick_val(g, width, height, col, row, tbv);
        dec_byte(
            g,
            width,
            height,
            tick_col(width, height, col, row),
            tick_row(width, height, col, row),
            t,
            (c << 1) | t,
            (n - 1) as nat,
        )
    }
}

/// The bit-order correction: the low byte of the accumulator with its
/// bits reversed.
pub open spec fn corrected(c: u32) -> u32 {
    (((c >> 0) & 1) << 7) | (((c >> 1) & 1) << 6) | (((c >> 2) & 1) << 5) | (((c >> 3) & 1) << 4)
        | (((c >> 4) & 1) << 3) | (((c >> 5) & 1) << 2) | (((c >> 6) & 1) << 1) | ((c >> 7) & 1)
}

/// One decode scan from a cursor position: candidate bytes are read until
/// the grid is exhausted or a corrected byte trips the noise threshold,
/// and every accepted byte is appended as a character.
pub open spec fn dec_scan(g: Seq<u8>, width: int, height: int, col: int, row: int, tbv: u32) -> Seq<
    char,
>
    decreases (height - row) * width - col,
{
    if 0 <= col && col + 1 < width && 0 <= row < height {
        let (c, col2, row2, tbv2) = dec_byte(g, width, height, col, row, tbv, 0, 8);
        let v = corrected(c);
        if v > NOISE_THRESHOLD {
            Seq::empty()
        } else {
            proof {
                lemma_dec_byte_frame(g, width, height, col, row, tbv, 0, 8);
            }
            seq![(v as u8) as char] + dec_scan(g, width, height, col2, row2, tbv2)
        }
    } else {
        Seq::empty()
    }
}

/// A sequence with every trailing NUL character removed.
pub open spec fn trim_trailing_nuls(s: Seq<char>) -> Seq<char>
    decreases s.len(),
{
    if s.len() > 0 && s.last() == '\0' {
        trim_trailing_nuls(s.drop_last())
    } else {
        s
    }
}

/// A decode step never leaves the grid: the column stays at most one pair
/// past the width, the row below the height, and the scan measure never
/// grows — and shrinks whenever a pair is actually read.
pub proof fn lemma_dec_byte_frame(
    g: Seq<u8>,
    width: int,
    height: int,
    col: int,
    row: int,
    tbv: u32,
    c: u32,
    n: nat,
)
    requires
        width >= 2,
        0 <= col <= width,
        0 <= row < height,
    ensures
        ({
            let (c2, col2, row2, tbv2) = dec_byte(g, width, height, col, row, tbv, c, n);
            &&& 0 <= col2 <= width
            &&& row <= row2 < height
            &&& (height - row2) * width - col2 >= 0
            &&& (height - row2) * width - col2 <= (height - row) * width - col
            &&& (col + 1 < width && n > 0 ==> (height - row2) * width - col2 < (height - row)
                * width - col)
        }),
    decreases n,
{
    assert((height - row) * width >= width) by (nonlinear_arith)
        requires
            height - row >= 1 && width >= 1,
    ;
    if n == 0 {
    } else {
        let t = tick_val(g, width, height, col, row, tbv);
        let col1 = tick_col(width, height, col, row);
        let row1 = tick_row(width, height, col, row);
        if col + 1 < width {
            assert((height - row1) * width - col1 < (height - row) * width - col);
        } else if row + 1 < height {
            assert((height - (row + 1)) * width == (height - row) * width - width)
                by (nonlinear_arith);
            assert((height - row1) * width - col1 < (height - row) * width - col);
        } else {
        }
        lemma_dec_byte_frame(g, width, height, col1, row1, t, (c << 1) | t, (n - 1) as nat);
    }
}

impl LLBE {
    /// A codec over the given carrier grid, with the cursor at the origin.
    pub fn new(config: Configuration, grid: PixelGrid) -> (r: Self)
        ensures
            r.config == config,
            r.grid == grid,
            r.col == 0,
            r.row == 0,
            r.temp_bit_val == 0,
    {
        LLBE { config, grid, col: 0, row: 0, temp_bit_val: 0 }
    }

    /// Embeds one bit at the cursor: wraps the cursor to the next row if
    /// fewer than two columns remain, overwrites the left blue sample of
    /// the pair with the right one minus `diff`, and steps two columns.
    fn encode_bit_character(&mut self, diff: u8)
        requires
            old(self).grid.wf(),
            old(self).grid.width >= 2,
            old(self).col <= old(self).grid.width,
            old(self).row < old(self).grid.height,
            step_col(
                old(self).grid.width as int,
                old(self).grid.height as int,
                old(self).col as int,
                old(self).row as int,
            ) + 1 < old(self).grid.width,
            step_row(
                old(self).grid.width as int,
                old(self).grid.height as int,
                old(self).col as int,
                old(self).row as int,
            ) < old(self).grid.height,
        ensures
            ({
                let w = old(self).grid.width as int;
                let h = old(self).grid.height as int;
                let sc = step_col(w, h, old(self).col as int, old(self).row as int);
                let sr = step_row(w, h, old(self).col as int, old(self).row as int);
                &&& final(self).grid.data@ == old(self).grid.data@.update(
                    blue_offset(w, sc, sr),
                    old(self).grid.spec_blue(sc + 1, sr).wrapping_sub(diff),
                )
                &&& final(self).col == sc + 2
                &&& final(self).row == sr
                &&& final(self).grid.width == old(self).grid.width
                &&& final(self).grid.height == old(self).grid.height
                &&& final(self).grid.wf()
                &&& final(self).temp_bit_val == old(self).temp_bit_val
                &&& final(self).config == old(self).config
            }),
    {
        if self.col >= self.grid.width - 1 && self.row < self.grid.height - 1 {
            self.row = self.row + 1;
            self.col = 0;
        }
        let next_blue = self.grid.blue(self.col + 1, self.row);
        let b = next_blue.wrapping_sub(diff);
        self.grid.set_blue(self.col, self.row, b);
        self.col = self.col + 2;
    }

    /// Embeds all eight bits of one character, least-significant first,
    /// continuing the cursor walk that `k` embedded bits left behind.
    fn encode_byte(
        &mut self,
        ch: char,
        Ghost(g0): Ghost<Seq<u8>>,
        Ghost(s): Ghost<Seq<char>>,
        Ghost(k): Ghost<int>,
    )
        requires
            old(self).grid.wf(),
            old(self).grid.width >= 2,
            g0.len() == old(self).grid.data@.len(),
            0 <= k,
            k % 8 == 0,
            k + 8 <= capacity_bits(old(self).grid.width as int, old(self).grid.height as int),
            k + 8 <= 8 * s.len(),
            s[k / 8] == ch,
            old(self).grid.data@ == encode_bits(g0, old(self).grid.width as int, s, k),
            old(self).col as int == cursor_col(old(self).grid.width as int, k),
            old(self).row as int == cursor_row(old(self).grid.width as int, k),
        ensures
            final(self).grid.data@ == encode_bits(g0, old(self).grid.width as int, s, k + 8),
            final(self).col as int == cursor_col(old(self).grid.width as int, k + 8),
            final(self).row as int == cursor_row(old(self).grid.width as int, k + 8),
            final(self).grid.width == old(self).grid.width,
            final(self).grid.height == old(self).grid.height,
            final(self).grid.wf(),
            final(self).temp_bit_val == old(self).temp_bit_val,
            final(self).config == old(self).config,
    {
        let ghost w = self.grid.width as int;
        let ghost h = self.grid.height as int;
        let b: u8 = #[verifier::truncate] (ch as u8);
        let mut i: u8 = 0;
        while i < 8
            invariant
                self.grid.wf(),
                self.grid.width as int == w,
                self.grid.height as int == h,
                w >= 2,
                g0.len() == self.grid.data@.len(),
                0 <= k,
                k % 8 == 0,
                k + 8 <= capacity_bits(w, h),
                k + 8 <= 8 * s.len(),
                b == (s[k / 8] as u8),
                i <= 8,
                self.grid.data@ == encode_bits(g0, w, s, k + i),
                self.col as int == cursor_col(w, k + i),
                self.row as int == cursor_row(w, k + i),
                self.temp_bit_val == old(self).temp_bit_val,
                self.config == old(self).config,
            decreases 8 - i,
        {
            proof {
                lemma_cursor_step(self.grid.data@, w, h, k + i, self.temp_bit_val);
                lemma_encode_bits_len(g0, w, h, s, k + i);
                lemma_read_preserved(g0, w, h, s, k + i, k + i);
            }
            let ghost pre = self.grid.data@;
            self.encode_bit_character((b >> i) & 1);
            proof {
                let ki = k + i;
                // the bit embedded is payload bit `k + i` of the stream
                lemma_fundamental_div_mod(k, 8);
                lemma_fundamental_div_mod_converse(ki, 8, k / 8, i as int);
                assert((b >> i) & 1 == payload_bit(s, ki));
                // so one more slot of the pointwise picture is filled in
                assert(self.grid.data@ =~= encode_bits(g0, w, s, ki + 1));
            }
            i = i + 1;
        }
    }

    /// One decode step at the cursor: reads the differential value of the
    /// pair there (wrapping to the next row first when fewer than two
    /// columns remain) and steps two columns; at the right edge of the
    /// last row it reads nothing and keeps the previous value.
    fn decode_bit_character(&mut self)
        requires
            old(self).grid.wf(),
            old(self).grid.width >= 2,
            old(self).col <= old(self).grid.width,
            old(self).row < old(self).grid.height,
        ensures
            ({
                let w = old(self).grid.width as int;
                let h = old(self).grid.height as int;
                &&& final(self).col == tick_col(w, h, old(self).col as int, old(self).row as int)
                &&& final(self).row == tick_row(w, h, old(self).col as int, old(self).row as int)
                &&& final(self).temp_bit_val == tick_val(
                    old(self).grid.data@,
                    w,
                    h,
                    old(self).col as int,
                    old(self).row as int,
                    old(self).temp_bit_val,
                )
                &&& final(self).grid == old(self).grid
                &&& final(self).config == old(self).config
            }),
    {
        if self.col < self.grid.width - 1 {
            let b = self.grid.blue(self.col, self.row) as i32;
            let new_b = self.grid.blue(self.col + 1, self.row) as i32;
            self.col = self.col + 2;
            self.temp_bit_val = diff_to_u32(new_b - b);
        } else if self.col >= self.grid.width - 1 && self.row < self.grid.height - 1 {
            self.row = self.row + 1;
            self.col = 0;
            let b = self.grid.blue(self.col, self.row) as i32;
            let new_b = self.grid.blue(self.col + 1, self.row) as i32;
            self.col = self.col + 2;
            self.temp_bit_val = diff_to_u32(new_b - b);
        }
    }
}

// ---------------------------------------------------------------------------
// Position lemmas: the cursor walk and the bit-slot arithmetic agree.
// ---------------------------------------------------------------------------

/// A grid at least two columns wide holds at least one pair per row, and
/// its pairs cover the width except possibly one trailing column.
pub proof fn lemma_row_pair(width: int)
    requires
        width >= 2,
    ensures
        1 <= row_bits(width),
        2 * row_bits(width) <= width,
        width <= 2 * row_bits(width) + 1,
{
    lemma_fundamental_div_mod(width, 2);
    lemma_mod_division_less_than_divisor(width, 2);
}

/// Every bit slot below the capacity lies on a readable pair of the grid.
pub proof fn lemma_bit_pos_valid(width: int, height: int, k: int)
    requires
        width >= 2,
        0 <= k < capacity_bits(width, height),
    ensures
        0 <= bit_col(width, k),
        bit_col(width, k) + 1 < width,
        0 <= bit_row(width, k) < height,
{
    let rb = row_bits(width);
    lemma_row_pair(width);
    lemma_mod_division_less_than_divisor(k, rb);
    lemma_div_pos_is_pos(k, rb);
    assert(height * rb == rb * height) by (nonlinear_arith);
    lemma_multiply_divide_lt(k, rb, height);
}

/// After `k` bits the cursor sits where bit slot `k` will be worked: the
/// lazy wrap of the next bit operation lands exactly on the slot's pair,
/// and both the encoder's step and the decoder's tick leave the cursor
/// where `k + 1` bits put it.
pub proof fn lemma_cursor_step(g: Seq<u8>, width: int, height: int, k: int, tbv: u32)
    requires
        width >= 2,
        0 <= k < capacity_bits(width, height),
    ensures
        0 <= cursor_col(width, k) <= width,
        0 <= cursor_row(width, k) < height,
        step_col(width, height, cursor_col(width, k), cursor_row(width, k)) == bit_col(width, k),
        step_row(width, height, cursor_col(width, k), cursor_row(width, k)) == bit_row(width, k),
        bit_col(width, k) + 1 < width,
        0 <= bit_row(width, k) < height,
        cursor_col(width, k + 1) == bit_col(width, k) + 2,
        cursor_row(width, k + 1) == bit_row(width, k),
        tick_col(width, height, cursor_col(width, k), cursor_row(width, k)) == cursor_col(
            width,
            k + 1,
        ),
        tick_row(width, height, cursor_col(width, k), cursor_row(width, k)) == cursor_row(
            width,
            k + 1,
        ),
        tick_val(g, width, height, cursor_col(width, k), cursor_row(width, k), tbv) == diff_val(
            g,
            width,
            bit_col(width, k),
            bit_row(width, k),
        ),
{
    let rb = row_bits(width);
    lemma_row_pair(width);
    lemma_bit_pos_valid(width, height, k);
    if k == 0 {
        lemma_small_mod(0, rb as nat);
        assert(0int / rb == 0) by {
            lemma_basic_div_specific_divisor(rb);
        }
    } else {
        lemma_fundamental_div_mod(k - 1, rb);
        lemma_mod_division_less_than_divisor(k - 1, rb);
        let q = (k - 1) / rb;
        let r = (k - 1) % rb;
        lemma_div_pos_is_pos(k - 1, rb);
        if r < rb - 1 {
            assert(k == q * rb + (r + 1)) by (nonlinear_arith)
                requires
                    k - 1 == rb * q + r,
            ;
            lemma_fundamental_div_mod_converse(k, rb, q, r + 1);
            assert(bit_col(width, k) == 2 * r + 2);
            assert(bit_row(width, k) == q);
        } else {
            assert(k == (q + 1) * rb + 0) by (nonlinear_arith)
                requires
                    k - 1 == rb * q + r && r == rb - 1,
            ;
            lemma_fundamental_div_mod_converse(k, rb, q + 1, 0);
            assert(bit_col(width, k) == 0);
            assert(bit_row(width, k) == q + 1);
        }
    }
    // the cursor one bit later rests two columns past the slot's pair
    lemma_fundamental_div_mod(k, rb);
    lemma_mod_division_less_than_divisor(k, rb);
}

// ---------------------------------------------------------------------------
// Pointwise characterization of the encoded carrier.
// ---------------------------------------------------------------------------

/// Distinct bit slots write distinct bytes of the carrier.
pub proof fn lemma_slots_distinct(width: int, height: int, k1: int, k2: int)
    requires
        width >= 2,
        0 <= k1 < capacity_bits(width, height),
        0 <= k2 < capacity_bits(width, height),
        k1 != k2,
    ensures
        blue_offset(width, bit_col(width, k1), bit_row(width, k1)) != blue_offset(
            width,
            bit_col(width, k2),
            bit_row(width, k2),
        ),
{
    let rb = row_bits(width);
    lemma_row_pair(width);
    lemma_bit_pos_valid(width, height, k1);
    lemma_bit_pos_valid(width, height, k2);
    if bit_col(width, k1) == bit_col(width, k2) && bit_row(width, k1) == bit_row(width, k2) {
        lemma_fundamental_div_mod(k1, rb);
        lemma_fundamental_div_mod(k2, rb);
        assert(false);
    } else {
        PixelGrid::lemma_offset_injective(
            width,
            bit_col(width, k1),
            bit_row(width, k1),
            BLUE as int,
            bit_col(width, k2),
            bit_row(width, k2),
            BLUE as int,
        );
    }
}

/// Bytes the encoder never writes keep their original value, and the
/// carrier keeps its length.
pub proof fn lemma_encode_bits_untouched(
    orig: Seq<u8>,
    width: int,
    height: int,
    s: Seq<char>,
    n: int,
    j: int,
)
    requires
        width >= 2,
        orig.len() == 4 * width * height,
        0 <= n <= capacity_bits(width, height),
        0 <= j < orig.len(),
        forall|k: int|
            0 <= k < n ==> j != blue_offset(width, bit_col(width, k), bit_row(width, k)),
    ensures
        encode_bits(orig, width, s, n).len() == orig.len(),
        encode_bits(orig, width, s, n)[j] == orig[j],
    decreases n,
{
    if n <= 0 {
    } else {
        lemma_encode_bits_untouched(orig, width, height, s, n - 1, j);
        lemma_bit_pos_valid(width, height, n - 1);
        PixelGrid::lemma_offset_bounds(
            width,
            height,
            orig.len() as int,
            bit_col(width, n - 1),
            bit_row(width, n - 1),
            BLUE as int,
        );
    }
}

/// The carrier keeps its length under encoding.
pub proof fn lemma_encode_bits_len(orig: Seq<u8>, width: int, height: int, s: Seq<char>, n: int)
    requires
        width >= 2,
        orig.len() == 4 * width * height,
        0 <= n <= capacity_bits(width, height),
    ensures
        encode_bits(orig, width, s, n).len() == orig.len(),
    decreases n,
{
    if n <= 0 {
    } else {
        lemma_encode_bits_len(orig, width, height, s, n - 1);
        lemma_bit_pos_valid(width, height, n - 1);
        PixelGrid::lemma_offset_bounds(
            width,
            height,
            orig.len() as int,
            bit_col(width, n - 1),
            bit_row(width, n - 1),
            BLUE as int,
        );
    }
}

/// Every embedded bit slot holds the original right-hand blue sample
/// minus its payload bit, with 8-bit wraparound.
pub proof fn lemma_encode_bits_slot(
    orig: Seq<u8>,
    width: int,
    height: int,
    s: Seq<char>,
    n: int,
    k: int,
)
    requires
        width >= 2,
        orig.len() == 4 * width * height,
        0 <= k < n <= capacity_bits(width, height),
    ensures
        encode_bits(orig, width, s, n)[blue_offset(width, bit_col(width, k), bit_row(width, k))]
            == orig[blue_offset(width, bit_col(width, k) + 1, bit_row(width, k))].wrapping_sub(
            payload_bit(s, k),
        ),
    decreases n,
{
    lemma_bit_pos_valid(width, height, k);
    PixelGrid::lemma_offset_bounds(
        width,
        height,
        orig.len() as int,
        bit_col(width, k),
        bit_row(width, k),
        BLUE as int,
    );
    lemma_encode_bits_len(orig, width, height, s, n - 1);
    lemma_bit_pos_valid(width, height, n - 1);
    PixelGrid::lemma_offset_bounds(
        width,
        height,
        orig.len() as int,
        bit_col(width, n - 1),
        bit_row(width, n - 1),
        BLUE as int,
    );
    if n - 1 == k {
    } else {
        lemma_slots_distinct(width, height, k, n - 1);
        lemma_encode_bits_slot(orig, width, height, s, n - 1, k);
    }
}

/// The right-hand sample of a pair sits in an odd column, which no bit
/// slot ever writes: the encoder always reads original values.
pub proof fn lemma_read_preserved(
    orig: Seq<u8>,
    width: int,
    height: int,
    s: Seq<char>,
    n: int,
    k: int,
)
    requires
        width >= 2,
        orig.len() == 4 * width * height,
        0 <= n <= capacity_bits(width, height),
        0 <= k < capacity_bits(width, height),
    ensures
        encode_bits(orig, width, s, n)[blue_offset(width, bit_col(width, k) + 1, bit_row(width, k))]
            == orig[blue_offset(width, bit_col(width, k) + 1, bit_row(width, k))],
{
    let rb = row_bits(width);
    lemma_row_pair(width);
    lemma_bit_pos_valid(width, height, k);
    let j = blue_offset(width, bit_col(width, k) + 1, bit_row(width, k));
    PixelGrid::lemma_offset_bounds(
        width,
        height,
        orig.len() as int,
        bit_col(width, k) + 1,
        bit_row(width, k),
        BLUE as int,
    );
    assert forall|k2: int| 0 <= k2 < n implies j != blue_offset(
        width,
        bit_col(width, k2),
        bit_row(width, k2),
    ) by {
        lemma_bit_pos_valid(width, height, k2);
        // an even column never equals an odd one
        assert(bit_col(width, k2) != bit_col(width, k) + 1);
        PixelGrid::lemma_offset_injective(
            width,
            bit_col(width, k2),
            bit_row(width, k2),
            BLUE as int,
            bit_col(width, k) + 1,
            bit_row(width, k),
            BLUE as int,
        );
    }
    lemma_encode_bits_untouched(orig, width, height, s, n, j);
}

impl Encoder for LLBE {
    /// Encoding needs a well-formed grid and the cursor at the origin.
    open spec fn encode_ready(&self) -> bool {
        &&& self.grid.wf()
        &&& self.col == 0
        &&& self.row == 0
    }

    /// The payload fits if the grid offers a bit slot for every bit of
    /// every payload character.
    open spec fn fits(&self) -> bool {
        8 * self.config.text_to_encrypt@.len() <= capacity_bits(
            self.grid.width as int,
            self.grid.height as int,
        )
    }

    /// A successful embed leaves the pointwise-encoded carrier behind and
    /// rests the cursor back at the origin; nothing else moves.
    open spec fn encode_post(pre: Self, post: Self) -> bool {
        &&& post.grid.data@ == encode_bits(
            pre.grid.data@,
            pre.grid.width as int,
            pre.config.text_to_encrypt@,
            8 * pre.config.text_to_encrypt@.len() as int,
        )
        &&& post.grid.width == pre.grid.width
        &&& post.grid.height == pre.grid.height
        &&& post.grid.wf()
        &&& post.col == 0
        &&& post.row == 0
        &&& post.temp_bit_val == pre.temp_bit_val
        &&& post.config == pre.config
    }

    /// A refused embed touches nothing.
    open spec fn encode_frame(pre: Self, post: Self) -> bool {
        &&& post.grid.data@ == pre.grid.data@
        &&& post.grid.width == pre.grid.width
        &&& post.grid.height == pre.grid.height
        &&& post.col == pre.col
        &&& post.row == pre.row
        &&& post.temp_bit_val == pre.temp_bit_val
        &&& post.config == pre.config
    }

    fn encode(&mut self) -> (r: Result<(), CapacityError>) {
        let w = self.grid.width;
        let h = self.grid.height;
        let chars: Vec<char> = chars_of(self.config.text_to_encrypt.as_str());
        let n: usize = chars.len();
        let rb: u32 = w / 2;
        proof {
            assert(0 <= (h as int) * (rb as int) <= 0xffff_ffff * 0xffff_ffff)
                by (nonlinear_arith)
                requires
                    0 <= h as int <= 0xffff_ffff && 0 <= rb as int <= 0xffff_ffff,
            ;
        }
        let available: u128 = (h as u128) * (rb as u128);
        let needed: u128 = 8 * (n as u128);
        if needed > available {
            return Err(CapacityError { needed_bits: needed, available_bits: available });
        }
        let ghost g0 = self.grid.data@;
        let ghost s = chars@;
        proof {
            if n > 0 && w < 2 {
                lemma_basic_div_specific_divisor(2);
                assert(row_bits(w as int) == 0);
                assert((h as int) * 0 == 0) by (nonlinear_arith);
                assert(capacity_bits(w as int, h as int) == 0);
            }
        }
        let mut i: usize = 0;
        while i < n
            invariant
                self.grid.wf(),
                self.grid.width == w,
                self.grid.height == h,
                n > 0 ==> w >= 2,
                i <= n,
                n == s.len(),
                chars@ == s,
                g0.len() == self.grid.data@.len(),
                8 * n <= capacity_bits(w as int, h as int),
                self.grid.data@ == encode_bits(g0, w as int, s, 8 * i),
                self.col as int == cursor_col(w as int, 8 * i),
                self.row as int == cursor_row(w as int, 8 * i),
                self.temp_bit_val == old(self).temp_bit_val,
                self.config == old(self).config,
            decreases n - i,
        {
            let ch = chars[i];
            proof {
                lemma_fundamental_div_mod_converse(8 * (i as int), 8, i as int, 0);
            }
            self.encode_byte(ch, Ghost(g0), Ghost(s), Ghost(8 * (i as int)));
            i = i + 1;
        }
        self.col = 0;
        self.row = 0;
        Ok(())
    }
}

impl Decoder for LLBE {
    /// A scan needs a well-formed grid that is at least one column wide.
    open spec fn decode_ready(&self) -> bool {
        &&& self.grid.wf()
        &&& self.grid.width >= 1
    }

    /// The text a scan recovers: the raw scan from the current cursor,
    /// with trailing NULs stripped.
    open spec fn decoded(&self) -> Seq<char> {
        trim_trailing_nuls(
            dec_scan(
                self.grid.data@,
                self.grid.width as int,
                self.grid.height as int,
                self.col as int,
                self.row as int,
                self.temp_bit_val,
            ),
        )
    }

    /// A scan only reads: the carrier and the configuration survive it.
    open spec fn decode_frame(pre: Self, post: Self) -> bool {
        &&& post.grid.data@ == pre.grid.data@
        &&& post.grid.width == pre.grid.width
        &&& post.grid.height == pre.grid.height
        &&& post.config == pre.config
    }

    fn decode(&mut self) -> (r: String) {
        let w = self.grid.width;
        let h = self.grid.height;
        let ghost g = self.grid.data@;
        let ghost full = dec_scan(
            g,
            w as int,
            h as int,
            self.col as int,
            self.row as int,
            self.temp_bit_val,
        );
        let mut chars: Vec<char> = Vec::new();
        let mut done: bool = false;
        while !done && self.col < w - 1 && self.row < h
            invariant
                self.grid.wf(),
                self.grid.width == w,
                self.grid.height == h,
                w >= 1,
                self.grid.data@ == g,
                self.config == old(self).config,
                if done {
                    chars@ == full
                } else {
                    chars@ + dec_scan(
                        g,
                        w as int,
                        h as int,
                        self.col as int,
                        self.row as int,
                        self.temp_bit_val,
                    ) == full
                },
            decreases (if done { 0int } else { 1int }), (h - self.row) * w - self.col,
        {
            let ghost col0 = self.col;
            let ghost row0 = self.row;
            let ghost tbv0 = self.temp_bit_val;
            let mut c: u32 = 0;
            let mut j: u8 = 0;
            while j < 8
                invariant
                    self.grid.wf(),
                    self.grid.width == w,
                    self.grid.height == h,
                    w >= 2,
                    self.grid.data@ == g,
                    self.config == old(self).config,
                    j <= 8,
                    self.col <= w,
                    self.row < h,
                    dec_byte(
                        g,
                        w as int,
                        h as int,
                        self.col as int,
                        self.row as int,
                        self.temp_bit_val,
                        c,
                        (8 - j) as nat,
                    ) == dec_byte(g, w as int, h as int, col0 as int, row0 as int, tbv0, 0, 8),
                decreases 8 - j,
            {
                self.decode_bit_character();
                c = (c << 1) | self.temp_bit_val;
                j = j + 1;
            }
            let v: u32 = (((c >> 0) & 1) << 7) | (((c >> 1) & 1) << 6) | (((c >> 2) & 1) << 5)
                | (((c >> 3) & 1) << 4) | (((c >> 4) & 1) << 3) | (((c >> 5) & 1) << 2) | (((c
                >> 6) & 1) << 1) | ((c >> 7) & 1);
            proof {
                lemma_corrected_bound(c);
                lemma_dec_byte_frame(g, w as int, h as int, col0 as int, row0 as int, tbv0, 0, 8);
            }
            if v > NOISE_THRESHOLD {
                done = true;
            } else {
                chars.push(v as u8 as char);
                proof {
                    assert(chars@ + dec_scan(
                        g,
                        w as int,
                        h as int,
                        self.col as int,
                        self.row as int,
                        self.temp_bit_val,
                    ) =~= full);
                }
            }
        }
        while chars.len() > 0 && chars[chars.len() - 1] == '\0'
            invariant
                trim_trailing_nuls(chars@) == trim_trailing_nuls(full),
            decreases chars@.len(),
        {
            chars.pop();
        }
        proof {
            assert(chars@ == trim_trailing_nuls(full));
        }
        string_from_chars(&chars)
    }
}

/// The corrected byte is at most 255: only the low eight bits of the
/// accumulator survive the bit-order correction.
pub proof fn lemma_corrected_bound(c: u32)
    ensures
        corrected(c) <= 255,
{
    assert((((c >> 0) & 1) << 7) | (((c >> 1) & 1) << 6) | (((c >> 2) & 1) << 5) | (((c >> 3) & 1)
        << 4) | (((c >> 4) & 1) << 3) | (((c >> 5) & 1) << 2) | (((c >> 6) & 1) << 1) | ((c >> 7)
        & 1) <= 255) by (bit_vector);
}

/// Relies on String::push: appends exactly the given character.
#[verifier::external_body]
fn push_char(s: &mut String, c: char)
    ensures
        final(s)@ == old(s)@.push(c),
{
    s.push(c);
}

/// A string holding exactly the given characters.
fn string_from_chars(v: &Vec<char>) -> (s: String)
    ensures
        s@ == v@,
{
    let mut s = String::new();
    let mut i: usize = 0;
    while i < v.len()
        invariant
            i <= v@.len(),
            s@ == v@.subrange(0, i as int),
        decreases v@.len() - i,
    {
        push_char(&mut s, v[i]);
        proof {
            assert(v@.subrange(0, i as int).push(v@[i as int]) =~= v@.subrange(0, i + 1 as int));
        }
        i = i + 1;
    }
    proof {
        assert(v@.subrange(0, v@.len() as int) =~= v@);
    }
    s
}

/// The characters of a string, as a vector.
fn chars_of(s: &str) -> (v: Vec<char>)
    ensures
        v@ == s@,
{
    let n: usize = s.unicode_len();
    let mut v: Vec<char> = Vec::new();
    let mut i: usize = 0;
    while i < n
        invariant
            i <= n,
            n == s@.len(),
            v@ == s@.subrange(0, i as int),
        decreases n - i,
    {
        v.push(s.get_char(i));
        proof {
            assert(s@.subrange(0, i as int).push(s@[i as int]) =~= s@.subrange(0, i + 1 as int));
        }
        i = i + 1;
    }
    proof {
        assert(s@.subrange(0, s@.len() as int) =~= s@);
    }
    v
}

/// A signed blue-sample difference reinterpreted as an unsigned 32-bit
/// value, exactly as a plain `as` cast would do it.
fn diff_to_u32(d: i32) -> (r: u32)
    requires
        -255 <= d <= 255,
    ensures
        r == (if d >= 0 {
            d as u32
        } else {
            (d + 0x1_0000_0000) as u32
        }),
{
    if d >= 0 {
        d as u32
    } else {
        ((d as i64) + 0x1_0000_0000) as u32
    }
}

} // verus!
