use image_cipherus::{Algorithm, Configuration, Decoder, Encoder, Mode, PixelGrid, LLBE};

fn uniform_grid(width: u32, height: u32, pixels: &[(u32, u32)]) -> PixelGrid {
    let mut imgbuf = PixelGrid::new(width, height);
    for &(col, row) in pixels {
        imgbuf.put_pixel(col, row, 0, 0, 1, 0xFF);
    }
    imgbuf
}

#[test]
fn test_encoding_single_letter() {
    let mut imgbuf = PixelGrid::new(16, 1);
    imgbuf.put_pixel(0, 0, 0, 0, 1, 0xFF);
    imgbuf.put_pixel(1, 0, 0, 0, 1, 0xFF);

    imgbuf.put_pixel(2, 0, 0, 0, 1, 0xFF);
    imgbuf.put_pixel(3, 0, 0, 0, 1, 0xFF);

    imgbuf.put_pixel(4, 0, 0, 0, 1, 0xFF);
    imgbuf.put_pixel(5, 0, 0, 0, 1, 0xFF);

    imgbuf.put_pixel(6, 0, 0, 0, 1, 0xFF);
    imgbuf.put_pixel(7, 0, 0, 0, 1, 0xFF);

    imgbuf.put_pixel(8, 0, 0, 0, 1, 0xFF);
    imgbuf.put_pixel(9, 0, 0, 0, 1, 0xFF);

    imgbuf.put_pixel(10, 0, 0, 0, 1, 0xFF);
    imgbuf.put_pixel(11, 0, 0, 0, 1, 0xFF);

    imgbuf.put_pixel(12, 0, 0, 0, 1, 0xFF);
    imgbuf.put_pixel(13, 0, 0, 0, 1, 0xFF);

    imgbuf.put_pixel(14, 0, 0, 0, 1, 0xFF);
    imgbuf.put_pixel(15, 0, 0, 0, 1, 0xFF);

    let mut algo = LLBE {
        grid: imgbuf,
        col: 0,
        row: 0,
        temp_bit_val: 0,
        config: Configuration {
            algorithm: Algorithm::LLBE,
            mode: Mode::ENCODING,
            image_path: String::from(""),
            text_to_encrypt: String::from("A"),
        },
    };

    algo.encode().unwrap();

    assert_eq!(algo.grid.blue(0, 0), 0);
    assert_eq!(algo.grid.blue(12, 0), 0);
}

#[test]
fn test_encoding_one_letter_in_two_lines() {
    let pixels: Vec<(u32, u32)> = (0..14)
        .map(|c| (c, 0))
        .chain([(0, 1), (1, 1)])
        .collect();
    let imgbuf = uniform_grid(14, 2, &pixels);

    let mut algo = LLBE {
        grid: imgbuf,
        col: 0,
        row: 0,
        temp_bit_val: 0,
        config: Configuration {
            algorithm: Algorithm::LLBE,
            mode: Mode::ENCODING,
            image_path: String::from(""),
            text_to_encrypt: String::from("A"),
        },
    };

    algo.encode().unwrap();

    assert_eq!(algo.grid.blue(0, 0), 0);
    assert_eq!(algo.grid.blue(12, 0), 0);
}

#[test]
fn test_encoding_two_letters_wrapped_in_three_lines() {
    let pixels: Vec<(u32, u32)> = (0..14)
        .map(|c| (c, 0))
        .chain((0..14).map(|c| (c, 1)))
        .chain([(0, 2), (1, 2), (2, 2), (3, 2)])
        .collect();
    let imgbuf = uniform_grid(14, 3, &pixels);

    let mut algo = LLBE {
        grid: imgbuf,
        col: 0,
        row: 0,
        temp_bit_val: 0,
        config: Configuration {
            algorithm: Algorithm::LLBE,
            mode: Mode::ENCODING,
            image_path: String::from(""),
            text_to_encrypt: String::from("AA"),
        },
    };

    algo.encode().unwrap();

    assert_eq!(algo.grid.blue(0, 0), 0);
    assert_eq!(algo.grid.blue(12, 0), 0);
    assert_eq!(algo.grid.blue(2, 1), 0);
    assert_eq!(algo.grid.blue(0, 2), 0);
}

#[test]
fn test_decoding_one_line_single_letter() {
    let mut imgbuf = PixelGrid::new(16, 1);
    imgbuf.put_pixel(0, 0, 0, 0, 0, 0xFF);
    imgbuf.put_pixel(1, 0, 0, 0, 1, 0xFF);

    imgbuf.put_pixel(2, 0, 0, 0, 1, 0xFF);
    imgbuf.put_pixel(3, 0, 0, 0, 1, 0xFF);

    imgbuf.put_pixel(4, 0, 0, 0, 1, 0xFF);
    imgbuf.put_pixel(5, 0, 0, 0, 1, 0xFF);

    imgbuf.put_pixel(6, 0, 0, 0, 1, 0xFF);
    imgbuf.put_pixel(7, 0, 0, 0, 1, 0xFF);

    imgbuf.put_pixel(8, 0, 0, 0, 1, 0xFF);
    imgbuf.put_pixel(9, 0, 0, 0, 1, 0xFF);

    imgbuf.put_pixel(10, 0, 0, 0, 1, 0xFF);
    imgbuf.put_pixel(11, 0, 0, 0, 1, 0xFF);

    imgbuf.put_pixel(12, 0, 0, 0, 0, 0xFF);
    imgbuf.put_pixel(13, 0, 0, 0, 1, 0xFF);

    imgbuf.put_pixel(14, 0, 0, 0, 1, 0xFF);
    imgbuf.put_pixel(15, 0, 0, 0, 1, 0xFF);

    let mut algo = LLBE {
        grid: imgbuf,
        col: 0,
        row: 0,
        temp_bit_val: 0,
        config: Configuration {
            algorithm: Algorithm::LLBE,
            mode: Mode::DECODING,
            image_path: String::from("tmp"),
            text_to_encrypt: String::from(""),
        },
    };

    assert_eq!(algo.decode(), "A");
}

#[test]
fn test_decoding_wrapped_two_lines_single_letter() {
    let mut imgbuf = PixelGrid::new(14, 2);
    imgbuf.put_pixel(0, 0, 0, 0, 0, 0xFF);
    imgbuf.put_pixel(1, 0, 0, 0, 1, 0xFF);

    imgbuf.put_pixel(2, 0, 0, 0, 1, 0xFF);
    imgbuf.put_pixel(3, 0, 0, 0, 1, 0xFF);

    imgbuf.put_pixel(4, 0, 0, 0, 1, 0xFF);
    imgbuf.put_pixel(5, 0, 0, 0, 1, 0xFF);

    imgbuf.put_pixel(6, 0, 0, 0, 1, 0xFF);
    imgbuf.put_pixel(7, 0, 0, 0, 1, 0xFF);

    imgbuf.put_pixel(8, 0, 0, 0, 1, 0xFF);
    imgbuf.put_pixel(9, 0, 0, 0, 1, 0xFF);

    imgbuf.put_pixel(10, 0, 0, 0, 1, 0xFF);
    imgbuf.put_pixel(11, 0, 0, 0, 1, 0xFF);

    imgbuf.put_pixel(12, 0, 0, 0, 0, 0xFF);
    imgbuf.put_pixel(13, 0, 0, 0, 1, 0xFF);

    imgbuf.put_pixel(0, 1, 0, 0, 1, 0xFF);
    imgbuf.put_pixel(1, 1, 0, 0, 1, 0xFF);

    let mut algo = LLBE {
        grid: imgbuf,
        col: 0,
        row: 0,
        temp_bit_val: 0,
        config: Configuration {
            algorithm: Algorithm::LLBE,
            mode: Mode::DECODING,
            image_path: String::from("tmp"),
            text_to_encrypt: String::from(""),
        },
    };

    assert_eq!(algo.decode(), "A");
}

#[test]
fn test_decoding_wrapped_three_lines_two_letters() {
    let mut imgbuf = PixelGrid::new(14, 3);
    imgbuf.put_pixel(0, 0, 0, 0, 0, 0xFF);
    imgbuf.put_pixel(1, 0, 0, 0, 1, 0xFF);

    imgbuf.put_pixel(2, 0, 0, 0, 1, 0xFF);
    imgbuf.put_pixel(3, 0, 0, 0, 1, 0xFF);

    imgbuf.put_pixel(4, 0, 0, 0, 1, 0xFF);
    imgbuf.put_pixel(5, 0, 0, 0, 1, 0xFF);

    imgbuf.put_pixel(6, 0, 0, 0, 1, 0xFF);
    imgbuf.put_pixel(7, 0, 0, 0, 1, 0xFF);

    imgbuf.put_pixel(8, 0, 0, 0, 1, 0xFF);
    imgbuf.put_pixel(9, 0, 0, 0, 1, 0xFF);

    imgbuf.put_pixel(10, 0, 0, 0, 1, 0xFF);
    imgbuf.put_pixel(11, 0, 0, 0, 1, 0xFF);

    imgbuf.put_pixel(12, 0, 0, 0, 0, 0xFF);
    imgbuf.put_pixel(13, 0, 0, 0, 1, 0xFF);

    imgbuf.put_pixel(0, 1, 0, 0, 1, 0xFF);
    imgbuf.put_pixel(1, 1, 0, 0, 1, 0xFF);

    imgbuf.put_pixel(2, 1, 0, 0, 0, 0xFF);
    imgbuf.put_pixel(3, 1, 0, 0, 1, 0xFF);

    imgbuf.put_pixel(4, 1, 0, 0, 1, 0xFF);
    imgbuf.put_pixel(5, 1, 0, 0, 1, 0xFF);

    imgbuf.put_pixel(6, 1, 0, 0, 1, 0xFF);
    imgbuf.put_pixel(7, 1, 0, 0, 1, 0xFF);

    imgbuf.put_pixel(8, 1, 0, 0, 1, 0xFF);
    imgbuf.put_pixel(9, 1, 0, 0, 1, 0xFF);

    imgbuf.put_pixel(10, 1, 0, 0, 1, 0xFF);
    imgbuf.put_pixel(11, 1, 0, 0, 1, 0xFF);

    imgbuf.put_pixel(12, 1, 0, 0, 1, 0xFF);
    imgbuf.put_pixel(13, 1, 0, 0, 1, 0xFF);

    imgbuf.put_pixel(0, 2, 0, 0, 0, 0xFF);
    imgbuf.put_pixel(1, 2, 0, 0, 1, 0xFF);

    imgbuf.put_pixel(2, 2, 0, 0, 1, 0xFF);
    imgbuf.put_pixel(3, 2, 0, 0, 1, 0xFF);

    let mut algo = LLBE {
        grid: imgbuf,
        col: 0,
        row: 0,
        temp_bit_val: 0,
        config: Configuration {
            algorithm: Algorithm::LLBE,
            mode: Mode::DECODING,
            image_path: String::from("tmp"),
            text_to_encrypt: String::from(""),
        },
    };

    assert_eq!(algo.decode(), "AA");
}
