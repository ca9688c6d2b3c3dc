use image_cipherus::{
    get_decoder, get_encoder, Algorithm, CapacityError, Configuration, Decoder, Encoder, Mode,
    PixelGrid, LLBE,
};

fn config(mode: Mode, text: &str) -> Configuration {
    Configuration {
        algorithm: Algorithm::LLBE,
        mode,
        image_path: String::from(""),
        text_to_encrypt: String::from(text),
    }
}

/// A 14-wide, 8-high grid holds 7 bit pairs per row, so a 7-character
/// payload fills it exactly and the scan stops right behind the payload.
#[test]
fn round_trip_full_grid() {
    let mut grid = PixelGrid::new(14, 8);
    for row in 0..8 {
        for col in 0..14 {
            grid.put_pixel(col, row, 10, 20, 100 + (col as u8), 0xFF);
        }
    }
    let mut enc = get_encoder(config(Mode::ENCODING, "HELLO12"), grid);
    enc.encode().unwrap();
    let mut dec = get_decoder(config(Mode::DECODING, ""), enc.grid);
    assert_eq!(dec.decode(), "HELLO12");
}

/// An all-zero carrier exercises the wrapping byte arithmetic: embedding
/// a one-bit over a zero sample wraps the written sample to 255, and the
/// decoder still recovers the bit from the wrapped difference.
#[test]
fn round_trip_wrapping_subtraction() {
    let grid = PixelGrid::new(16, 1);
    let mut enc = get_encoder(config(Mode::ENCODING, "A"), grid);
    enc.encode().unwrap();
    // 'A' = 0x41: bits 0 and 6 are set, embedded at columns 0 and 12
    assert_eq!(enc.grid.blue(0, 0), 255);
    assert_eq!(enc.grid.blue(12, 0), 255);
    assert_eq!(enc.grid.blue(2, 0), 0);
    let mut dec = get_decoder(config(Mode::DECODING, ""), enc.grid);
    assert_eq!(dec.decode(), "A");
}

/// Encoding touches blue samples in even columns only: red, green and
/// alpha of every pixel, and blue in odd columns, keep their values.
#[test]
fn channel_isolation() {
    let mut grid = PixelGrid::new(16, 2);
    for row in 0..2 {
        for col in 0..16 {
            grid.put_pixel(col, row, 7, 8, 9, 0xFF);
        }
    }
    let mut enc = get_encoder(config(Mode::ENCODING, "Zz"), grid);
    enc.encode().unwrap();
    for row in 0..2 {
        for col in 0..16 {
            assert_eq!(enc.grid.channel(col, row, 0), 7);
            assert_eq!(enc.grid.channel(col, row, 1), 8);
            assert_eq!(enc.grid.channel(col, row, 3), 0xFF);
            if col % 2 == 1 {
                assert_eq!(enc.grid.blue(col, row), 9);
            }
        }
    }
}

/// The second character's bits continue exactly where the first one's
/// bits stopped: no re-alignment to a row boundary in between.
#[test]
fn continuation_across_characters() {
    let mut grid = PixelGrid::new(6, 8);
    for row in 0..8 {
        for col in 0..6 {
            grid.put_pixel(col, row, 0, 0, 50, 0xFF);
        }
    }
    // 3 pairs per row; 'A' (0x41) takes bits 0..8, 'C' (0x43) bits 8..16
    let mut enc = get_encoder(config(Mode::ENCODING, "AC"), grid);
    enc.encode().unwrap();
    // 'A': bits 1,0,0,0,0,0,1,0 at slots 0..8
    assert_eq!(enc.grid.blue(0, 0), 49); // bit 0 of 'A'
    assert_eq!(enc.grid.blue(2, 0), 50); // bit 1 of 'A'
    assert_eq!(enc.grid.blue(0, 2), 49); // bit 6 of 'A'
    // 'C': bits 1,1,0,0,0,0,1,0 starting at slot 8 = row 2, second pair
    assert_eq!(enc.grid.blue(4, 2), 49); // bit 0 of 'C'
    assert_eq!(enc.grid.blue(0, 3), 49); // bit 1 of 'C'
    assert_eq!(enc.grid.blue(2, 3), 50); // bit 2 of 'C'
    assert_eq!(enc.grid.blue(4, 4), 49); // bit 6 of 'C'
    assert_eq!(enc.grid.blue(0, 5), 50); // bit 7 of 'C'
}

/// A corrected byte above the noise threshold ends the scan without
/// being appended.
#[test]
fn threshold_stops_scan() {
    let mut grid = PixelGrid::new(16, 1);
    // every pair differs by one, so the first byte is 0xFF = 255 > 200
    for col in 0..8 {
        grid.put_pixel(2 * col, 0, 0, 0, 0, 0xFF);
        grid.put_pixel(2 * col + 1, 0, 0, 0, 1, 0xFF);
    }
    let mut dec = get_decoder(config(Mode::DECODING, ""), grid);
    assert_eq!(dec.decode(), "");
}

/// A scan over equal samples reads NUL bytes, which the final trim
/// strips away.
#[test]
fn trailing_nuls_are_stripped() {
    let mut grid = PixelGrid::new(16, 1);
    for col in 0..16 {
        grid.put_pixel(col, 0, 0, 0, 77, 0xFF);
    }
    let mut dec = get_decoder(config(Mode::DECODING, ""), grid);
    assert_eq!(dec.decode(), "");
}

/// A payload with NULs behind recovers without them: the payload byte is
/// read, the residue decodes to NULs, and the trim removes them.
#[test]
fn round_trip_with_nul_residue() {
    let mut grid = PixelGrid::new(14, 2);
    for row in 0..2 {
        for col in 0..14 {
            grid.put_pixel(col, row, 1, 2, 30, 0xFF);
        }
    }
    let mut enc = get_encoder(config(Mode::ENCODING, "A"), grid);
    enc.encode().unwrap();
    let mut dec = get_decoder(config(Mode::DECODING, ""), enc.grid);
    assert_eq!(dec.decode(), "A");
}

/// A payload that needs more bit slots than the grid offers is refused
/// with the exact counts, and the carrier is left untouched.
#[test]
fn capacity_error_reports_counts() {
    let mut grid = PixelGrid::new(2, 1);
    grid.put_pixel(0, 0, 0, 0, 5, 0xFF);
    grid.put_pixel(1, 0, 0, 0, 6, 0xFF);
    let mut enc = get_encoder(config(Mode::ENCODING, "A"), grid);
    let res = enc.encode();
    assert_eq!(res, Err(CapacityError { needed_bits: 8, available_bits: 1 }));
    assert_eq!(enc.grid.blue(0, 0), 5);
    assert_eq!(enc.grid.blue(1, 0), 6);
    assert_eq!(enc.col, 0);
    assert_eq!(enc.row, 0);
}

/// An empty payload always fits and changes nothing.
#[test]
fn empty_payload_is_a_no_op() {
    let mut grid = PixelGrid::new(4, 1);
    grid.put_pixel(0, 0, 0, 0, 9, 0xFF);
    let mut enc = get_encoder(config(Mode::ENCODING, ""), grid);
    enc.encode().unwrap();
    assert_eq!(enc.grid.blue(0, 0), 9);
}

/// The cursor drifts across characters and resets after an embed.
#[test]
fn cursor_resets_after_encode() {
    let grid = PixelGrid::new(16, 1);
    let mut enc = LLBE::new(config(Mode::ENCODING, "A"), grid);
    enc.encode().unwrap();
    assert_eq!(enc.col, 0);
    assert_eq!(enc.row, 0);
}

/// The raw-buffer constructor accepts exactly a matching length.
#[test]
fn from_raw_checks_length() {
    assert!(PixelGrid::from_raw(2, 2, vec![0u8; 16]).is_some());
    assert!(PixelGrid::from_raw(2, 2, vec![0u8; 15]).is_none());
    assert!(PixelGrid::from_raw(2, 2, vec![0u8; 17]).is_none());
    let g = PixelGrid::from_raw(1, 1, vec![1, 2, 3, 4]).unwrap();
    assert_eq!(g.into_raw(), vec![1, 2, 3, 4]);
}

/// The scheme list names the one scheme there is.
#[test]
fn get_all_lists_the_scheme() {
    let all = Algorithm::get_all();
    assert_eq!(all.len(), 1);
    assert_eq!(all[0], "LLBE");
}

/// A payload byte exactly at the threshold is still accepted on decode.
#[test]
fn byte_at_threshold_round_trips() {
    let mut grid = PixelGrid::new(16, 1);
    for col in 0..16 {
        grid.put_pixel(col, 0, 0, 0, 40, 0xFF);
    }
    // U+00C8 has code 200, the threshold itself
    let mut enc = get_encoder(config(Mode::ENCODING, "\u{C8}"), grid);
    enc.encode().unwrap();
    let mut dec = get_decoder(config(Mode::DECODING, ""), enc.grid);
    assert_eq!(dec.decode(), "\u{C8}");
}

/// A payload byte just above the threshold encodes fine but is rejected
/// as noise on decode, so nothing comes back.
#[test]
fn byte_above_threshold_is_rejected_as_noise() {
    let mut grid = PixelGrid::new(16, 1);
    for col in 0..16 {
        grid.put_pixel(col, 0, 0, 0, 40, 0xFF);
    }
    // U+00C9 has code 201, one past the threshold
    let mut enc = get_encoder(config(Mode::ENCODING, "\u{C9}"), grid);
    enc.encode().unwrap();
    let mut dec = get_decoder(config(Mode::DECODING, ""), enc.grid);
    assert_eq!(dec.decode(), "");
}
