use ppm::{Image, ImageError, Rgb};

fn parse_int_error(msg: &str) -> ImageError {
    ImageError::ParseIntError(String::from(msg))
}

#[test]
fn encode_one_pixel_exact_bytes() {
    let img = Image::with_values(1, 1, 255, vec![Rgb::new(255, 0, 0)]).unwrap();
    let mut out: Vec<u8> = Vec::new();
    img.write_ascii(&mut out);
    assert_eq!(out, b"P3\n1 1\n255\n255   0   0 \n".to_vec());
}

#[test]
fn encode_two_rows_exact_bytes() {
    let pixels = vec![
        Rgb::new(7, 42, 255),
        Rgb::new(0, 100, 9),
    ];
    let img = Image::with_values(1, 2, 255, pixels).unwrap();
    let mut out: Vec<u8> = Vec::new();
    img.write_ascii(&mut out);
    assert_eq!(out, b"P3\n1 2\n255\n  7  42 255 \n  0 100   9 \n".to_vec());
}

#[test]
fn encode_appends_after_existing_bytes() {
    let img = Image::with_values(1, 1, 255, vec![Rgb::new(1, 2, 3)]).unwrap();
    let mut out: Vec<u8> = b"x".to_vec();
    img.write_ascii(&mut out);
    assert_eq!(&out[..1], b"x");
    assert_eq!(&out[1..4], b"P3\n");
}

#[test]
fn decode_example_stream() {
    let img = Image::from_bytes(b"P3\n2 1\n255\n255 0 0 0 255 0\n").unwrap();
    assert_eq!(img.dimensions(), (2, 1));
    assert_eq!(img.maxval(), 255);
    assert_eq!(img.get(0, 0).unwrap(), Rgb::new(255, 0, 0));
    assert_eq!(img.get(1, 0).unwrap(), Rgb::new(0, 255, 0));
}

#[test]
fn round_trip_two_pixels() {
    let img = Image::with_values(
        2,
        1,
        255,
        vec![Rgb::new(255, 0, 0), Rgb::new(0, 255, 0)],
    )
    .unwrap();
    let mut out: Vec<u8> = Vec::new();
    img.write_ascii(&mut out);
    let back = Image::from_bytes(&out).unwrap();
    assert_eq!(back.dimensions(), (2, 1));
    assert_eq!(back.maxval(), 255);
    assert_eq!(back.get(0, 0).unwrap(), Rgb::new(255, 0, 0));
    assert_eq!(back.get(1, 0).unwrap(), Rgb::new(0, 255, 0));
}

#[test]
fn round_trip_keeps_every_channel() {
    let pixels = vec![
        Rgb::new(0, 1, 9),
        Rgb::new(10, 99, 100),
        Rgb::new(254, 255, 128),
        Rgb::new(37, 0, 200),
        Rgb::new(5, 55, 155),
        Rgb::new(255, 255, 255),
    ];
    let img = Image::with_values(3, 2, 200, pixels.clone()).unwrap();
    let mut out: Vec<u8> = Vec::new();
    img.write_ascii(&mut out);
    let back = Image::from_bytes(&out).unwrap();
    assert_eq!(back.dimensions(), (3, 2));
    assert_eq!(back.maxval(), 200);
    assert_eq!(back.values(), &pixels);
}

#[test]
fn decode_rejects_wrong_magic() {
    let r = Image::from_bytes(b"P6\n1 1\n255\n0 0 0\n");
    match r {
        Err(ImageError::FormatError(m)) => {
            assert_eq!(m, "Invalid magic number [80, 54]");
        }
        _ => panic!("expected a format error"),
    }
}

#[test]
fn decode_rejects_empty_and_one_byte_streams() {
    assert_eq!(Image::from_bytes(b"").map(|_| ()), Err(ImageError::UnexpectedEof));
    assert_eq!(Image::from_bytes(b"P").map(|_| ()), Err(ImageError::UnexpectedEof));
}

#[test]
fn decode_rejects_missing_header_number() {
    assert_eq!(Image::from_bytes(b"P3\n2\n").map(|_| ()), Err(ImageError::UnexpectedEof));
    assert_eq!(Image::from_bytes(b"P3\n2 1\n").map(|_| ()), Err(ImageError::UnexpectedEof));
}

#[test]
fn decode_rejects_short_pixel_data() {
    let r = Image::from_bytes(b"P3\n2 2\n255\n255 0 0\n");
    assert_eq!(r.map(|_| ()), Err(ImageError::UnexpectedEof));
}

#[test]
fn decode_rejects_non_numeric_token() {
    let r = Image::from_bytes(b"P3\n2 x\n255\n");
    assert_eq!(r.map(|_| ()), Err(parse_int_error("invalid digit found in string")));
    let r2 = Image::from_bytes(b"P3\n1 1\n255\n1 2 c\n");
    assert_eq!(r2.map(|_| ()), Err(parse_int_error("invalid digit found in string")));
}

#[test]
fn decode_rejects_signed_numbers() {
    let r = Image::from_bytes(b"P3\n+2 1\n255\n1 2 3 4 5 6\n");
    assert_eq!(r.map(|_| ()), Err(parse_int_error("invalid digit found in string")));
}

#[test]
fn decode_rejects_width_past_u32() {
    let r = Image::from_bytes(b"P3\n4294967296 1\n255\n");
    assert_eq!(
        r.map(|_| ()),
        Err(parse_int_error("number too large to fit in target type"))
    );
}

#[test]
fn decode_rejects_channel_past_byte_range() {
    let r = Image::from_bytes(b"P3\n1 1\n255\n256 0 0\n");
    assert_eq!(
        r.map(|_| ()),
        Err(parse_int_error("number too large to fit in target type"))
    );
}

#[test]
fn decode_rejects_maxval_past_byte_range() {
    let r = Image::from_bytes(b"P3\n1 1\n256\n1 2 3\n");
    assert_eq!(
        r.map(|_| ()),
        Err(parse_int_error("number too large to fit in target type"))
    );
}

#[test]
fn decode_rejects_zero_dimensions() {
    assert_eq!(
        Image::from_bytes(b"P3\n0 5\n255\n").map(|_| ()),
        Err(ImageError::InvalidDimensions(0, 5))
    );
    assert_eq!(
        Image::from_bytes(b"P3\n5 0\n255\n").map(|_| ()),
        Err(ImageError::InvalidDimensions(5, 0))
    );
}

#[test]
fn decode_ignores_trailing_tokens() {
    let img = Image::from_bytes(b"P3\n1 1\n255\n1 2 3 99 99 99\n").unwrap();
    assert_eq!(img.dimensions(), (1, 1));
    assert_eq!(img.get(0, 0).unwrap(), Rgb::new(1, 2, 3));
}

#[test]
fn decode_treats_all_ascii_whitespace_alike() {
    let img = Image::from_bytes(b"P3\t1\t2\r\n255\x0c1\n2\n3\r4 5\t6").unwrap();
    assert_eq!(img.dimensions(), (1, 2));
    assert_eq!(img.get(0, 0).unwrap(), Rgb::new(1, 2, 3));
    assert_eq!(img.get(0, 1).unwrap(), Rgb::new(4, 5, 6));
}

#[test]
fn decode_magic_may_touch_first_number() {
    // Nothing requires whitespace between the magic and the width token.
    let img = Image::from_bytes(b"P31 1 255 9 8 7").unwrap();
    assert_eq!(img.dimensions(), (1, 1));
    assert_eq!(img.get(0, 0).unwrap(), Rgb::new(9, 8, 7));
}

#[test]
fn decode_keeps_declared_maxval() {
    let img = Image::from_bytes(b"P3\n1 1\n7\n1 2 3\n").unwrap();
    assert_eq!(img.maxval(), 7);
}
