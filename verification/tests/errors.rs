use ppm::ImageError;

#[test]
fn message_names_invalid_dimensions() {
    let e = ImageError::InvalidDimensions(0, 5);
    assert_eq!(e.message(), "Invalid image dimensions: 0x5");
    let e2 = ImageError::InvalidDimensions(1024, 768);
    assert_eq!(e2.message(), "Invalid image dimensions: 1024x768");
}

#[test]
fn message_names_invalid_location() {
    let e = ImageError::InvalidLocation(7, 9);
    assert_eq!(e.message(), "Invalid pixel location: (7, 9)");
}

#[test]
fn message_for_unexpected_eof() {
    assert_eq!(ImageError::UnexpectedEof.message(), "Unexpected EOF");
}

#[test]
fn message_prefixes_format_errors() {
    let e = ImageError::FormatError(String::from("Invalid magic number [80, 54]"));
    assert_eq!(e.message(), "Format error: Invalid magic number [80, 54]");
}

#[test]
fn message_passes_wrapped_descriptions_through() {
    let io = ImageError::IoError(String::from("file vanished"));
    assert_eq!(io.message(), "file vanished");
    let parse = ImageError::ParseIntError(String::from("invalid digit found in string"));
    assert_eq!(parse.message(), "invalid digit found in string");
}
