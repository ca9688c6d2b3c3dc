//! The scheme's global guarantees, stated over the mathematical model and
//! proved once and for all: what encoding leaves untouched, how payloads
//! compose, what a scan can return, and that a decode scan of an encoded
//! carrier gives the payload back.

use vstd::prelude::*;
use vstd::arithmetic::div_mod::{
    lemma_fundamental_div_mod, lemma_fundamental_div_mod_converse,
    lemma_mod_division_less_than_divisor, lemma_multiply_divide_lt,
};
use crate::algorithm::{Decoder, Encoder};
use crate::grid::{PixelGrid, BLUE};
use crate::llbe::{LLBE,

    bit_col, bit_row, blue_offset, capacity_bits, corrected, cursor_col, cursor_row, dec_byte,
    dec_scan, diff_val, encode_bits, lemma_bit_pos_valid, lemma_cursor_step,
    lemma_encode_bits_slot, lemma_encode_bits_untouched, lemma_read_preserved, lemma_row_pair, lemma_slots_distinct, payload_bit, row_bits,
    trim_trailing_nuls, NOISE_THRESHOLD,
};

verus! {

// ---------------------------------------------------------------------------
// Channel isolation.
// ---------------------------------------------------------------------------

/// Channel isolation: embedding only ever changes blue samples in even
/// columns. Red, green and alpha of every pixel — and every blue sample
/// in an odd column — keep their original values.
pub proof fn lemma_channel_isolation(
    orig: Seq<u8>,
    width: int,
    height: int,
    s: Seq<char>,
    n: int,
    col: int,
    row: int,
    ch: int,
)
    requires
        width >= 2,
        orig.len() == 4 * width * height,
        0 <= n <= capacity_bits(width, height),
        0 <= col < width,
        0 <= row < height,
        0 <= ch < 4,
        ch != BLUE || col % 2 == 1,
    ensures
        encode_bits(orig, width, s, n)[PixelGrid::spec_offset(width, col, row, ch)] == orig[
            PixelGrid::spec_offset(width, col, row, ch)],
{
    let j = PixelGrid::spec_offset(width, col, row, ch);
    PixelGrid::lemma_offset_bounds(width, height, orig.len() as int, col, row, ch);
    assert forall|k: int| 0 <= k < n implies j != blue_offset(
        width,
        bit_col(width, k),
        bit_row(width, k),
    ) by {
        lemma_bit_pos_valid(width, height, k);
        if ch == BLUE {
            // the written column is even, this one is odd
            lemma_fundamental_div_mod(col, 2);
            lemma_mod_division_less_than_divisor(col, 2);
            assert(bit_col(width, k) != col);
        }
        PixelGrid::lemma_offset_injective(
            width,
            bit_col(width, k),
            bit_row(width, k),
            BLUE as int,
            col,
            row,
            ch,
        );
    }
    lemma_encode_bits_untouched(orig, width, height, s, n, j);
}

// ---------------------------------------------------------------------------
// Multi-character continuation.
// ---------------------------------------------------------------------------

/// A bit inside the first payload of a concatenation is the same bit of
/// the first payload alone.
pub proof fn lemma_payload_bit_prefix(s1: Seq<char>, s2: Seq<char>, k: int)
    requires
        0 <= k < 8 * s1.len(),
    ensures
        payload_bit(s1 + s2, k) == payload_bit(s1, k),
{
    assert(k < 8 * (s1.len() as int));
    assert(8 * (s1.len() as int) == 8 * s1.len());
    lemma_multiply_divide_lt(k, 8, s1.len() as int);
    lemma_div_nonneg(k, 8);
    assert((s1 + s2)[k / 8] == s1[k / 8]);
}

/// A bit of the second payload of a concatenation, read at its continued
/// position, is the matching bit of the second payload alone.
pub proof fn lemma_payload_bit_suffix(s1: Seq<char>, s2: Seq<char>, j: int)
    requires
        0 <= j < 8 * s2.len(),
    ensures
        payload_bit(s1 + s2, 8 * s1.len() + j) == payload_bit(s2, j),
{
    let len1 = s1.len() as int;
    let k = 8 * len1 + j;
    lemma_fundamental_div_mod(j, 8);
    lemma_mod_division_less_than_divisor(j, 8);
    assert(k == (len1 + j / 8) * 8 + j % 8) by (nonlinear_arith)
        requires
            j == 8 * (j / 8) + j % 8 && k == 8 * len1 + j,
    ;
    lemma_fundamental_div_mod_converse(k, 8, len1 + j / 8, j % 8);
    lemma_div_nonneg(j, 8);
    assert((s1 + s2)[len1 + j / 8] == s2[j / 8]);
}

/// Multi-character continuation: embedding a concatenation never
/// re-aligns to a row boundary between payloads. Every bit of the second
/// payload lands in the slot that directly continues the first payload's
/// walk, and the first payload's slots hold exactly what embedding it
/// alone would write.
pub proof fn lemma_multi_character_continuation(
    orig: Seq<u8>,
    width: int,
    height: int,
    s1: Seq<char>,
    s2: Seq<char>,
)
    requires
        width >= 2,
        orig.len() == 4 * width * height,
        8 * (s1.len() + s2.len()) <= capacity_bits(width, height),
    ensures
        forall|j: int|
            0 <= j < 8 * s2.len() ==> encode_bits(
                orig,
                width,
                s1 + s2,
                8 * (s1.len() + s2.len()) as int,
            )[blue_offset(
                width,
                bit_col(width, 8 * s1.len() + j),
                bit_row(width, 8 * s1.len() + j),
            )] == orig[blue_offset(
                width,
                bit_col(width, 8 * s1.len() + j) + 1,
                bit_row(width, 8 * s1.len() + j),
            )].wrapping_sub(payload_bit(s2, j)),
        forall|k: int|
            0 <= k < 8 * s1.len() ==> encode_bits(
                orig,
                width,
                s1 + s2,
                8 * (s1.len() + s2.len()) as int,
            )[blue_offset(width, bit_col(width, k), bit_row(width, k))] == encode_bits(
                orig,
                width,
                s1,
                8 * s1.len() as int,
            )[blue_offset(width, bit_col(width, k), bit_row(width, k))],
{
    let full = 8 * (s1.len() + s2.len()) as int;
    assert forall|j: int| 0 <= j < 8 * s2.len() implies encode_bits(orig, width, s1 + s2, full)[
        blue_offset(width, bit_col(width, 8 * s1.len() + j), bit_row(width, 8 * s1.len() + j))]
        == orig[blue_offset(
        width,
        bit_col(width, 8 * s1.len() + j) + 1,
        bit_row(width, 8 * s1.len() + j),
    )].wrapping_sub(payload_bit(s2, j)) by {
        lemma_encode_bits_slot(orig, width, height, s1 + s2, full, 8 * s1.len() + j);
        lemma_payload_bit_suffix(s1, s2, j);
    }
    assert forall|k: int| 0 <= k < 8 * s1.len() implies encode_bits(orig, width, s1 + s2, full)[
        blue_offset(width, bit_col(width, k), bit_row(width, k))] == encode_bits(
        orig,
        width,
        s1,
        8 * s1.len() as int,
    )[blue_offset(width, bit_col(width, k), bit_row(width, k))] by {
        lemma_encode_bits_slot(orig, width, height, s1 + s2, full, k);
        lemma_encode_bits_slot(orig, width, height, s1, 8 * s1.len() as int, k);
        lemma_payload_bit_prefix(s1, s2, k);
    }
}

/// Division of nonnegative values is nonnegative.
proof fn lemma_div_nonneg(x: int, d: int)
    requires
        0 <= x,
        0 < d,
    ensures
        0 <= x / d,
{
    vstd::arithmetic::div_mod::lemma_div_pos_is_pos(x, d);
}

// ---------------------------------------------------------------------------
// What a scan can return.
// ---------------------------------------------------------------------------

/// Threshold containment: a scan never yields a character whose code is
/// above the noise threshold — a byte beyond it ends the scan instead of
/// being appended.
pub proof fn lemma_scan_bounded(g: Seq<u8>, width: int, height: int, col: int, row: int, tbv: u32)
    ensures
        forall|i: int|
            0 <= i < dec_scan(g, width, height, col, row, tbv).len() ==> (dec_scan(
                g,
                width,
                height,
                col,
                row,
                tbv,
            )[i] as u32) <= NOISE_THRESHOLD,
    decreases (height - row) * width - col,
{
    if 0 <= col && col + 1 < width && 0 <= row < height {
        let (c, col2, row2, tbv2) = dec_byte(g, width, height, col, row, tbv, 0, 8);
        let v = corrected(c);
        if v > NOISE_THRESHOLD {
        } else {
            crate::llbe::lemma_dec_byte_frame(g, width, height, col, row, tbv, 0, 8);
            lemma_scan_bounded(g, width, height, col2, row2, tbv2);
            crate::llbe::lemma_corrected_bound(c);
            let rest = dec_scan(g, width, height, col2, row2, tbv2);
            let ch = (v as u8) as char;
            let whole = seq![ch] + rest;
            assert(dec_scan(g, width, height, col, row, tbv) == whole);
            assert((ch as u32) == v);
            assert forall|i: int| 0 <= i < whole.len() implies (whole[i] as u32)
                <= NOISE_THRESHOLD by {
                if i == 0 {
                    assert(whole[0] == ch);
                } else {
                    assert(whole[i] == rest[i - 1]);
                }
            }
        }
    }
}

/// Trailing-NUL stripping leaves no trailing NUL behind, and never
/// touches anything but trailing NULs.
pub proof fn lemma_trim_no_trailing_nul(s: Seq<char>)
    ensures
        trim_trailing_nuls(s).len() <= s.len(),
        trim_trailing_nuls(s).len() == 0 || trim_trailing_nuls(s).last() != '\0',
        trim_trailing_nuls(s) == s.subrange(0, trim_trailing_nuls(s).len() as int),
        forall|i: int| trim_trailing_nuls(s).len() <= i < s.len() ==> s[i] == '\0',
    decreases s.len(),
{
    if s.len() > 0 && s.last() == '\0' {
        let d = s.drop_last();
        lemma_trim_no_trailing_nul(d);
        let t = trim_trailing_nuls(s);
        assert(t == trim_trailing_nuls(d));
        assert(t.len() <= d.len());
        assert(d.subrange(0, t.len() as int) =~= s.subrange(0, t.len() as int));
        assert forall|i: int| t.len() <= i < s.len() implies s[i] == '\0' by {
            if i < d.len() {
                assert(d[i] == '\0');
                assert(s[i] == d[i]);
            } else {
                assert(s[i] == s.last());
            }
        }
    } else {
        assert(trim_trailing_nuls(s) =~= s.subrange(0, s.len() as int));
    }
}

// ---------------------------------------------------------------------------
// Round trip.
// ---------------------------------------------------------------------------

/// Every pair from bit slot `from` on holds two equal blue samples: the
/// carrier has no residue that a scan could mistake for payload bits.
pub open spec fn zero_residue(orig: Seq<u8>, width: int, height: int, from: int) -> bool {
    forall|k: int|
        from <= k < capacity_bits(width, height) ==> orig[blue_offset(
            width,
            bit_col(width, k) + 1,
            bit_row(width, k),
        )] == orig[blue_offset(width, bit_col(width, k), bit_row(width, k))]
}

/// `r` is `s` followed by nothing but NULs.
pub open spec fn nul_padded(r: Seq<char>, s: Seq<char>) -> bool {
    &&& s.len() <= r.len()
    &&& r.subrange(0, s.len() as int) == s
    &&& forall|i: int| s.len() <= i < r.len() ==> r[i] == '\0'
}

/// A payload bit is never more than one.
proof fn lemma_payload_bit_le_one(s: Seq<char>, k: int)
    ensures
        payload_bit(s, k) <= 1,
{
    let b = s[k / 8] as u8;
    let i = (k % 8) as u8;
    assert((b >> i) & 1 <= 1) by (bit_vector);
}

/// A pair the encoder wrote yields the embedded bit back in the low byte
/// of its differential value.
proof fn lemma_pair_diff(nb: u8, wb: u8, d: u8, t: u32)
    requires
        d <= 1,
        wb == nb.wrapping_sub(d),
        t == (if nb - wb >= 0 {
            (nb - wb) as u32
        } else {
            (nb - wb + 0x1_0000_0000) as u32
        }),
    ensures
        t & 0xFF == d as u32,
{
    if nb >= d {
        assert(t == d as u32);
        assert((d as u32) & 0xFF == d as u32) by (bit_vector)
            requires
                d <= 1,
        ;
    } else {
        assert(d == 1 && nb == 0 && wb == 255);
        assert(t == 0xFFFF_FF01u32);
        assert(0xFFFF_FF01u32 & 0xFF == 1u32) by (bit_vector);
    }
}

/// Folding eight differential values whose low bytes are the bits of `b`,
/// least-significant bit first, corrects to exactly `b`.
proof fn lemma_corrected_accum(b: u8, t0: u32, t1: u32, t2: u32, t3: u32, t4: u32, t5: u32, t6: u32, t7: u32)
    requires
        t0 & 0xFF == ((b >> 0u8) & 1) as u32,
        t1 & 0xFF == ((b >> 1u8) & 1) as u32,
        t2 & 0xFF == ((b >> 2u8) & 1) as u32,
        t3 & 0xFF == ((b >> 3u8) & 1) as u32,
        t4 & 0xFF == ((b >> 4u8) & 1) as u32,
        t5 & 0xFF == ((b >> 5u8) & 1) as u32,
        t6 & 0xFF == ((b >> 6u8) & 1) as u32,
        t7 & 0xFF == ((b >> 7u8) & 1) as u32,
    ensures
        corrected(
            ((((((((((((((((0u32 << 1) | t0) << 1) | t1) << 1) | t2) << 1) | t3) << 1) | t4) << 1)
                | t5) << 1) | t6) << 1) | t7),
        ) == b as u32,
{
    assert(corrected(
        ((((((((((((((((0u32 << 1) | t0) << 1) | t1) << 1) | t2) << 1) | t3) << 1) | t4) << 1)
            | t5) << 1) | t6) << 1) | t7),
    ) == b as u32) by (bit_vector)
        requires
            t0 & 0xFF == ((b >> 0u8) & 1) as u32,
            t1 & 0xFF == ((b >> 1u8) & 1) as u32,
            t2 & 0xFF == ((b >> 2u8) & 1) as u32,
            t3 & 0xFF == ((b >> 3u8) & 1) as u32,
            t4 & 0xFF == ((b >> 4u8) & 1) as u32,
            t5 & 0xFF == ((b >> 5u8) & 1) as u32,
            t6 & 0xFF == ((b >> 6u8) & 1) as u32,
            t7 & 0xFF == ((b >> 7u8) & 1) as u32,
    ;
}

/// The differential value at an embedded slot recovers its payload bit in
/// its low byte.
proof fn lemma_slot_bit(orig: Seq<u8>, width: int, height: int, s: Seq<char>, k: int)
    requires
        width >= 2,
        orig.len() == 4 * width * height,
        0 <= k < 8 * s.len(),
        8 * s.len() <= capacity_bits(width, height),
    ensures
        diff_val(
            encode_bits(orig, width, s, 8 * s.len() as int),
            width,
            bit_col(width, k),
            bit_row(width, k),
        ) & 0xFF == payload_bit(s, k) as u32,
{
    let n = 8 * s.len() as int;
    let enc = encode_bits(orig, width, s, n);
    lemma_encode_bits_slot(orig, width, height, s, n, k);
    lemma_read_preserved(orig, width, height, s, n, k);
    lemma_payload_bit_le_one(s, k);
    let nb = enc[blue_offset(width, bit_col(width, k) + 1, bit_row(width, k))];
    let wb = enc[blue_offset(width, bit_col(width, k), bit_row(width, k))];
    lemma_pair_diff(
        nb,
        wb,
        payload_bit(s, k),
        diff_val(enc, width, bit_col(width, k), bit_row(width, k)),
    );
}

/// The differential value at a slot of an all-zero residue is zero.
proof fn lemma_slot_zero(orig: Seq<u8>, width: int, height: int, s: Seq<char>, k: int)
    requires
        width >= 2,
        orig.len() == 4 * width * height,
        8 * s.len() <= capacity_bits(width, height),
        zero_residue(orig, width, height, 8 * s.len() as int),
        8 * s.len() <= k < capacity_bits(width, height),
    ensures
        diff_val(
            encode_bits(orig, width, s, 8 * s.len() as int),
            width,
            bit_col(width, k),
            bit_row(width, k),
        ) == 0,
{
    let n = 8 * s.len() as int;
    lemma_read_preserved(orig, width, height, s, n, k);
    let j = blue_offset(width, bit_col(width, k), bit_row(width, k));
    lemma_bit_pos_valid(width, height, k);
    PixelGrid::lemma_offset_bounds(
        width,
        height,
        orig.len() as int,
        bit_col(width, k),
        bit_row(width, k),
        BLUE as int,
    );
    assert forall|k2: int| 0 <= k2 < n implies j != blue_offset(
        width,
        bit_col(width, k2),
        bit_row(width, k2),
    ) by {
        lemma_slots_distinct(width, height, k, k2);
    }
    lemma_encode_bits_untouched(orig, width, height, s, n, j);
}

/// A character at or below the noise threshold survives the byte
/// truncation unchanged.
proof fn lemma_char_byte_value(c: char)
    requires
        c as int <= 255,
    ensures
        (c as u8) as int == c as int,
        ((c as u8) as u32) as int == c as int,
{
}

/// Bit `i` of the stream inside character `m` is bit `i` of that
/// character's byte.
proof fn lemma_payload_bit_at(s: Seq<char>, m: int, i: int)
    requires
        0 <= m,
        0 <= i < 8,
    ensures
        payload_bit(s, 8 * m + i) == ((s[m] as u8) >> (i as u8)) & 1,
{
    assert(8 * m + i == m * 8 + i) by (nonlinear_arith);
    lemma_fundamental_div_mod_converse(8 * m + i, 8, m, i);
}

/// Reading eight steps from the cursor at a byte boundary of the payload
/// region recovers that character's byte and leaves the cursor at the
/// next byte boundary.
proof fn lemma_dec_byte_payload(
    orig: Seq<u8>,
    width: int,
    height: int,
    s: Seq<char>,
    m: int,
    tbv: u32,
)
    requires
        width >= 2,
        orig.len() == 4 * width * height,
        0 <= m,
        m < s.len(),
        8 * s.len() <= capacity_bits(width, height),
    ensures
        ({
            let enc = encode_bits(orig, width, s, 8 * s.len() as int);
            let r = dec_byte(
                enc,
                width,
                height,
                cursor_col(width, 8 * m),
                cursor_row(width, 8 * m),
                tbv,
                0,
                8,
            );
            &&& corrected(r.0) == (s[m] as u8) as u32
            &&& r.1 == cursor_col(width, 8 * m + 8)
            &&& r.2 == cursor_row(width, 8 * m + 8)
        }),
{
    let enc = encode_bits(orig, width, s, 8 * s.len() as int);
    let k = 8 * m;
    let b = s[m] as u8;
    lemma_payload_bit_at(s, m, 0);
    lemma_payload_bit_at(s, m, 1);
    lemma_payload_bit_at(s, m, 2);
    lemma_payload_bit_at(s, m, 3);
    lemma_payload_bit_at(s, m, 4);
    lemma_payload_bit_at(s, m, 5);
    lemma_payload_bit_at(s, m, 6);
    lemma_payload_bit_at(s, m, 7);
    let t0 = diff_val(enc, width, bit_col(width, k), bit_row(width, k));
    let t1 = diff_val(enc, width, bit_col(width, k + 1), bit_row(width, k + 1));
    let t2 = diff_val(enc, width, bit_col(width, k + 2), bit_row(width, k + 2));
    let t3 = diff_val(enc, width, bit_col(width, k + 3), bit_row(width, k + 3));
    let t4 = diff_val(enc, width, bit_col(width, k + 4), bit_row(width, k + 4));
    let t5 = diff_val(enc, width, bit_col(width, k + 5), bit_row(width, k + 5));
    let t6 = diff_val(enc, width, bit_col(width, k + 6), bit_row(width, k + 6));
    let t7 = diff_val(enc, width, bit_col(width, k + 7), bit_row(width, k + 7));
    lemma_slot_bit(orig, width, height, s, k);
    lemma_slot_bit(orig, width, height, s, k + 1);
    lemma_slot_bit(orig, width, height, s, k + 2);
    lemma_slot_bit(orig, width, height, s, k + 3);
    lemma_slot_bit(orig, width, height, s, k + 4);
    lemma_slot_bit(orig, width, height, s, k + 5);
    lemma_slot_bit(orig, width, height, s, k + 6);
    lemma_slot_bit(orig, width, height, s, k + 7);
    lemma_cursor_step(enc, width, height, k, tbv);
    lemma_cursor_step(enc, width, height, k + 1, t0);
    lemma_cursor_step(enc, width, height, k + 2, t1);
    lemma_cursor_step(enc, width, height, k + 3, t2);
    lemma_cursor_step(enc, width, height, k + 4, t3);
    lemma_cursor_step(enc, width, height, k + 5, t4);
    lemma_cursor_step(enc, width, height, k + 6, t5);
    lemma_cursor_step(enc, width, height, k + 7, t6);
    let c1 = (0u32 << 1) | t0;
    let c2 = (c1 << 1) | t1;
    let c3 = (c2 << 1) | t2;
    let c4 = (c3 << 1) | t3;
    let c5 = (c4 << 1) | t4;
    let c6 = (c5 << 1) | t5;
    let c7 = (c6 << 1) | t6;
    let c8 = (c7 << 1) | t7;
    assert(dec_byte(enc, width, height, cursor_col(width, k), cursor_row(width, k), tbv, 0, 8)
        == dec_byte(enc, width, height, cursor_col(width, k + 1), cursor_row(width, k + 1), t0, c1, 7));
    assert(dec_byte(enc, width, height, cursor_col(width, k + 1), cursor_row(width, k + 1), t0, c1, 7)
        == dec_byte(enc, width, height, cursor_col(width, k + 2), cursor_row(width, k + 2), t1, c2, 6));
    assert(dec_byte(enc, width, height, cursor_col(width, k + 2), cursor_row(width, k + 2), t1, c2, 6)
        == dec_byte(enc, width, height, cursor_col(width, k + 3), cursor_row(width, k + 3), t2, c3, 5));
    assert(dec_byte(enc, width, height, cursor_col(width, k + 3), cursor_row(width, k + 3), t2, c3, 5)
        == dec_byte(enc, width, height, cursor_col(width, k + 4), cursor_row(width, k + 4), t3, c4, 4));
    assert(dec_byte(enc, width, height, cursor_col(width, k + 4), cursor_row(width, k + 4), t3, c4, 4)
        == dec_byte(enc, width, height, cursor_col(width, k + 5), cursor_row(width, k + 5), t4, c5, 3));
    assert(dec_byte(enc, width, height, cursor_col(width, k + 5), cursor_row(width, k + 5), t4, c5, 3)
        == dec_byte(enc, width, height, cursor_col(width, k + 6), cursor_row(width, k + 6), t5, c6, 2));
    assert(dec_byte(enc, width, height, cursor_col(width, k + 6), cursor_row(width, k + 6), t5, c6, 2)
        == dec_byte(enc, width, height, cursor_col(width, k + 7), cursor_row(width, k + 7), t6, c7, 1));
    assert(dec_byte(enc, width, height, cursor_col(width, k + 7), cursor_row(width, k + 7), t6, c7, 1)
        == dec_byte(enc, width, height, cursor_col(width, k + 8), cursor_row(width, k + 8), t7, c8, 0));
    lemma_corrected_accum(b, t0, t1, t2, t3, t4, t5, t6, t7);
}

/// The cursor after a whole number of rows rests one step past the row's
/// last pair, where the next scan check stops.
proof fn lemma_cursor_at_multiple(width: int, k: int)
    requires
        width >= 2,
        k > 0,
        k % row_bits(width) == 0,
    ensures
        cursor_col(width, k) == 2 * row_bits(width),
        cursor_col(width, k) + 1 >= width,
        cursor_row(width, k) == k / row_bits(width) - 1,
{
    let rb = row_bits(width);
    lemma_row_pair(width);
    lemma_fundamental_div_mod(k, rb);
    assert(k - 1 == (k / rb - 1) * rb + (rb - 1)) by (nonlinear_arith)
        requires
            k == rb * (k / rb),
    ;
    lemma_fundamental_div_mod_converse(k - 1, rb, k / rb - 1, rb - 1);
}

/// Reading `n` steps inside an all-zero residue keeps a zero accumulator
/// and moves the cursor `n` slots on, or parks it at the capacity.
proof fn lemma_dec_ticks_zero(
    orig: Seq<u8>,
    width: int,
    height: int,
    s: Seq<char>,
    k: int,
    n: nat,
    tbv: u32,
)
    requires
        width >= 2,
        height >= 1,
        orig.len() == 4 * width * height,
        8 * s.len() <= capacity_bits(width, height),
        zero_residue(orig, width, height, 8 * s.len() as int),
        8 * s.len() <= k <= capacity_bits(width, height),
        k == capacity_bits(width, height) ==> tbv == 0,
    ensures
        ({
            let enc = encode_bits(orig, width, s, 8 * s.len() as int);
            let cap = capacity_bits(width, height);
            let k2 = if k + n <= cap {
                k + n
            } else {
                cap
            };
            let r = dec_byte(
                enc,
                width,
                height,
                cursor_col(width, k),
                cursor_row(width, k),
                tbv,
                0,
                n,
            );
            &&& r.0 == 0
            &&& r.1 == cursor_col(width, k2)
            &&& r.2 == cursor_row(width, k2)
            &&& (k2 == cap ==> r.3 == 0)
        }),
    decreases n,
{
    let enc = encode_bits(orig, width, s, 8 * s.len() as int);
    let cap = capacity_bits(width, height);
    let rb = row_bits(width);
    lemma_row_pair(width);
    if n == 0 {
    } else if k < cap {
        lemma_cursor_step(enc, width, height, k, tbv);
        lemma_slot_zero(orig, width, height, s, k);
        assert((0u32 << 1) | 0u32 == 0u32) by (bit_vector);
        lemma_dec_ticks_zero(orig, width, height, s, k + 1, (n - 1) as nat, 0);
    } else {
        // parked at the capacity: the step reads nothing and keeps zero
        assert(cap == height * rb);
        assert(cap % rb == 0 && cap / rb == height) by {
            assert(cap == height * rb + 0) by (nonlinear_arith)
                requires
                    cap == height * rb,
            ;
            lemma_fundamental_div_mod_converse(cap, rb, height, 0);
        }
        assert(cap >= rb) by (nonlinear_arith)
            requires
                cap == height * rb && height >= 1 && rb >= 1,
        ;
        lemma_cursor_at_multiple(width, cap);
        assert(cursor_row(width, cap) == height - 1);
        assert((0u32 << 1) | 0u32 == 0u32) by (bit_vector);
        lemma_dec_ticks_zero(orig, width, height, s, k, (n - 1) as nat, 0);
    }
}

/// A scan inside an all-zero residue returns nothing but NULs.
proof fn lemma_scan_tail(orig: Seq<u8>, width: int, height: int, s: Seq<char>, k: int, tbv: u32)
    requires
        width >= 2,
        orig.len() == 4 * width * height,
        8 * s.len() <= capacity_bits(width, height),
        zero_residue(orig, width, height, 8 * s.len() as int),
        8 * s.len() <= k <= capacity_bits(width, height),
    ensures
        ({
            let enc = encode_bits(orig, width, s, 8 * s.len() as int);
            let r = dec_scan(enc, width, height, cursor_col(width, k), cursor_row(width, k), tbv);
            forall|i: int| 0 <= i < r.len() ==> r[i] == '\0'
        }),
    decreases capacity_bits(width, height) - k,
{
    let enc = encode_bits(orig, width, s, 8 * s.len() as int);
    let cap = capacity_bits(width, height);
    let rb = row_bits(width);
    lemma_row_pair(width);
    let col = cursor_col(width, k);
    let row = cursor_row(width, k);
    if 0 <= col && col + 1 < width && 0 <= row < height {
        // a pair is still readable, so the byte boundary is inside the grid
        if k == cap {
            assert(cap % rb == 0 && cap > 0) by {
                assert(cap == height * rb + 0 && cap >= rb) by (nonlinear_arith)
                    requires
                        cap == height * rb && height >= 1 && rb >= 1,
                ;
                lemma_fundamental_div_mod_converse(cap, rb, height, 0);
            }
            lemma_cursor_at_multiple(width, cap);
            assert(false);
        }
        lemma_dec_ticks_zero(orig, width, height, s, k, 8, tbv);
        let r8 = dec_byte(enc, width, height, col, row, tbv, 0, 8);
        assert(corrected(0u32) == 0u32) by (bit_vector);
        let k2 = if k + 8 <= cap {
            k + 8
        } else {
            cap
        };
        lemma_scan_tail(orig, width, height, s, k2, r8.3);
        let rest = dec_scan(enc, width, height, r8.1, r8.2, r8.3);
        let whole = seq![(0u32 as u8) as char] + rest;
        assert(dec_scan(enc, width, height, col, row, tbv) == whole);
        assert((0u32 as u8) as char == '\0');
        assert forall|i: int| 0 <= i < whole.len() implies whole[i] == '\0' by {
            if i > 0 {
                assert(whole[i] == rest[i - 1]);
            }
        }
    }
}

/// The scan from a byte boundary of the payload region returns the rest
/// of the payload, NUL padded.
proof fn lemma_scan_payload(
    orig: Seq<u8>,
    width: int,
    height: int,
    s: Seq<char>,
    m: int,
    tbv: u32,
)
    requires
        width >= 2,
        orig.len() == 4 * width * height,
        8 * s.len() <= capacity_bits(width, height),
        forall|i: int| 0 <= i < s.len() ==> (s[i] as int) <= NOISE_THRESHOLD as int,
        forall|j: int| 1 <= j < s.len() ==> #[trigger] ((8 * j) % row_bits(width)) != 0,
        (s.len() > 0 && (8 * s.len() as int) % row_bits(width) == 0) || zero_residue(
            orig,
            width,
            height,
            8 * s.len() as int,
        ),
        0 <= m <= s.len(),
    ensures
        nul_padded(
            dec_scan(
                encode_bits(orig, width, s, 8 * s.len() as int),
                width,
                height,
                cursor_col(width, 8 * m),
                cursor_row(width, 8 * m),
                tbv,
            ),
            s.subrange(m, s.len() as int),
        ),
    decreases s.len() - m,
{
    let enc = encode_bits(orig, width, s, 8 * s.len() as int);
    let cap = capacity_bits(width, height);
    let rb = row_bits(width);
    lemma_row_pair(width);
    let col = cursor_col(width, 8 * m);
    let row = cursor_row(width, 8 * m);
    if m == s.len() {
        let tail = s.subrange(m, s.len() as int);
        assert(tail =~= Seq::<char>::empty());
        if s.len() > 0 && (8 * s.len() as int) % rb == 0 {
            lemma_cursor_at_multiple(width, 8 * s.len() as int);
            let r = dec_scan(enc, width, height, col, row, tbv);
            assert(r =~= Seq::<char>::empty());
            assert(r.subrange(0, 0) =~= tail);
        } else {
            lemma_scan_tail(orig, width, height, s, 8 * m, tbv);
            let r = dec_scan(enc, width, height, col, row, tbv);
            assert(r.subrange(0, 0) =~= tail);
        }
    } else {
        // one more payload character is read before the rest of the scan
        lemma_cursor_step(enc, width, height, 8 * m, tbv);
        if m > 0 {
            assert((8 * m) % rb != 0);
        }
        assert(col + 1 < width && 0 <= row < height && 0 <= col);
        lemma_dec_byte_payload(orig, width, height, s, m, tbv);
        let r8 = dec_byte(enc, width, height, col, row, tbv, 0, 8);
        let v = corrected(r8.0);
        assert(v == (s[m] as u8) as u32);
        assert(s[m] as int <= NOISE_THRESHOLD as int);
        lemma_char_byte_value(s[m]);
        assert(v <= NOISE_THRESHOLD);
        let ch = (v as u8) as char;
        assert(ch as u32 == s[m] as u32);
        vstd::utf8::char_u32_cast(s[m], ch as u32);
        vstd::utf8::char_u32_cast(ch, ch as u32);
        assert(ch == s[m]);
        assert(8 * (m + 1) == 8 * m + 8);
        lemma_scan_payload(orig, width, height, s, m + 1, r8.3);
        let rest = dec_scan(enc, width, height, r8.1, r8.2, r8.3);
        let whole = seq![ch] + rest;
        assert(dec_scan(enc, width, height, col, row, tbv) == whole);
        let stail = s.subrange(m, s.len() as int);
        let stail1 = s.subrange(m + 1, s.len() as int);
        assert(whole.subrange(0, stail.len() as int) =~= seq![ch] + rest.subrange(
            0,
            stail1.len() as int,
        ));
        assert(whole.subrange(0, stail.len() as int) =~= stail);
        assert forall|i: int| stail.len() <= i < whole.len() implies whole[i] == '\0' by {
            assert(whole[i] == rest[i - 1]);
        }
    }
}

/// Round trip: a decode scan of a carrier that a fitting payload was
/// embedded into recovers the payload, up to trailing NULs — provided the
/// payload's characters stay at or below the noise threshold, no byte
/// boundary inside the payload falls on a row boundary (where the scan
/// would stop early), and the payload either ends exactly on a row
/// boundary or the residue behind it holds no stray differences.
pub proof fn lemma_round_trip(orig: Seq<u8>, width: int, height: int, s: Seq<char>)
    requires
        width >= 2,
        orig.len() == 4 * width * height,
        8 * s.len() <= capacity_bits(width, height),
        forall|i: int| 0 <= i < s.len() ==> (s[i] as int) <= NOISE_THRESHOLD as int,
        forall|j: int| 1 <= j < s.len() ==> #[trigger] ((8 * j) % row_bits(width)) != 0,
        (s.len() > 0 && (8 * s.len() as int) % row_bits(width) == 0) || zero_residue(
            orig,
            width,
            height,
            8 * s.len() as int,
        ),
    ensures
        trim_trailing_nuls(
            dec_scan(encode_bits(orig, width, s, 8 * s.len() as int), width, height, 0, 0, 0),
        ) == trim_trailing_nuls(s),
{
    let enc = encode_bits(orig, width, s, 8 * s.len() as int);
    lemma_scan_payload(orig, width, height, s, 0, 0);
    let r = dec_scan(enc, width, height, 0, 0, 0);
    assert(s.subrange(0, s.len() as int) =~= s);
    let pad = r.subrange(s.len() as int, r.len() as int);
    assert(r =~= s + pad);
    lemma_trim_append_nuls(s, pad);
}

/// The round trip at the codec's own interface: a decoder put onto the
/// carrier that a successful embed produced recovers the embedded text,
/// up to trailing NULs, under the round-trip side conditions.
pub proof fn lemma_codec_round_trip(pre: LLBE, post: LLBE, dec: LLBE)
    requires
        pre.grid.wf(),
        pre.grid.width >= 2,
        LLBE::encode_post(pre, post),
        dec.grid.data@ == post.grid.data@,
        dec.grid.width == pre.grid.width,
        dec.grid.height == pre.grid.height,
        dec.col == 0,
        dec.row == 0,
        dec.temp_bit_val == 0,
        8 * pre.config.text_to_encrypt@.len() <= capacity_bits(
            pre.grid.width as int,
            pre.grid.height as int,
        ),
        forall|i: int|
            0 <= i < pre.config.text_to_encrypt@.len() ==> (pre.config.text_to_encrypt@[i] as int)
                <= NOISE_THRESHOLD as int,
        forall|j: int|
            1 <= j < pre.config.text_to_encrypt@.len() ==> #[trigger] ((8 * j) % row_bits(
                pre.grid.width as int,
            )) != 0,
        (pre.config.text_to_encrypt@.len() > 0 && (8 * pre.config.text_to_encrypt@.len() as int)
            % row_bits(pre.grid.width as int) == 0) || zero_residue(
            pre.grid.data@,
            pre.grid.width as int,
            pre.grid.height as int,
            8 * pre.config.text_to_encrypt@.len() as int,
        ),
    ensures
        dec.decoded() == trim_trailing_nuls(pre.config.text_to_encrypt@),
{
    lemma_round_trip(
        pre.grid.data@,
        pre.grid.width as int,
        pre.grid.height as int,
        pre.config.text_to_encrypt@,
    );
}

/// Trailing NULs do not change what stripping returns.
pub proof fn lemma_trim_append_nuls(s: Seq<char>, t: Seq<char>)
    requires
        forall|i: int| 0 <= i < t.len() ==> t[i] == '\0',
    ensures
        trim_trailing_nuls(s + t) == trim_trailing_nuls(s),
    decreases t.len(),
{
    if t.len() == 0 {
        assert(s + t =~= s);
    } else {
        let st = s + t;
        assert(st.last() == '\0');
        assert(st.drop_last() =~= s + t.drop_last());
        lemma_trim_append_nuls(s, t.drop_last());
    }
}

} // verus!
