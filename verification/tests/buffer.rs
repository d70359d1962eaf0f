use ppm::{Image, ImageError, Rgb};

#[test]
fn create_fills_with_default_colour() {
    let img = Image::new(3, 2, 255).unwrap();
    assert_eq!(img.dimensions(), (3, 2));
    assert_eq!(img.maxval(), 255);
    for y in 0..2 {
        for x in 0..3 {
            assert_eq!(img.get(x, y).unwrap(), Rgb::black());
        }
    }
}

#[test]
fn get_rejects_either_coordinate_out_of_range() {
    let img = Image::new(3, 2, 255).unwrap();
    assert_eq!(img.get(3, 0), Err(ImageError::InvalidLocation(3, 0)));
    assert_eq!(img.get(0, 2), Err(ImageError::InvalidLocation(0, 2)));
    assert_eq!(img.get(3, 2), Err(ImageError::InvalidLocation(3, 2)));
    assert_eq!(img.get(1000, 1000), Err(ImageError::InvalidLocation(1000, 1000)));
}

#[test]
fn create_zero_width_fails() {
    assert_eq!(
        Image::new(0, 5, 255).map(|_| ()),
        Err(ImageError::InvalidDimensions(0, 5))
    );
}

#[test]
fn create_zero_height_fails() {
    assert_eq!(
        Image::new(5, 0, 255).map(|_| ()),
        Err(ImageError::InvalidDimensions(5, 0))
    );
}

#[test]
fn with_values_checks_length() {
    let pixels = vec![Rgb::new(1, 2, 3), Rgb::new(4, 5, 6), Rgb::new(7, 8, 9)];
    assert_eq!(
        Image::with_values(2, 2, 255, pixels).map(|_| ()),
        Err(ImageError::InvalidDimensions(2, 2))
    );
}

#[test]
fn with_values_keeps_pixels_row_major() {
    let pixels = vec![
        Rgb::new(1, 2, 3),
        Rgb::new(4, 5, 6),
        Rgb::new(7, 8, 9),
        Rgb::new(10, 11, 12),
    ];
    let img = Image::with_values(2, 2, 255, pixels.clone()).unwrap();
    assert_eq!(img.values(), &pixels);
    // Row-major layout: (x, y) sits at y * width + x.
    assert_eq!(img.get(0, 0).unwrap(), Rgb::new(1, 2, 3));
    assert_eq!(img.get(1, 0).unwrap(), Rgb::new(4, 5, 6));
    assert_eq!(img.get(0, 1).unwrap(), Rgb::new(7, 8, 9));
    assert_eq!(img.get(1, 1).unwrap(), Rgb::new(10, 11, 12));
}

#[test]
fn set_writes_in_place_and_checks_bounds() {
    let mut img = Image::new(2, 2, 255).unwrap();
    assert_eq!(img.set(1, 0, Rgb::new(9, 8, 7)), Ok(()));
    assert_eq!(img.get(1, 0).unwrap(), Rgb::new(9, 8, 7));
    assert_eq!(img.get(0, 0).unwrap(), Rgb::black());
    assert_eq!(img.set(2, 0, Rgb::white()), Err(ImageError::InvalidLocation(2, 0)));
    assert_eq!(img.set(0, 2, Rgb::white()), Err(ImageError::InvalidLocation(0, 2)));
    assert_eq!(img.get(1, 0).unwrap(), Rgb::new(9, 8, 7));
}

#[test]
fn colour_constructors() {
    assert_eq!(Rgb::new(5, 6, 7), Rgb { r: 5, g: 6, b: 7 });
    assert_eq!(Rgb::white(), Rgb { r: 255, g: 255, b: 255 });
    assert_eq!(Rgb::black(), Rgb { r: 0, g: 0, b: 0 });
    assert_eq!(Rgb::default(), Rgb::black());
}

#[test]
fn write_raw_emits_the_three_channel_bytes() {
    let mut out: Vec<u8> = vec![1];
    Rgb::new(10, 20, 30).write_raw(&mut out);
    assert_eq!(out, vec![1, 10, 20, 30]);
}

#[test]
fn vec_with_dimensions_fills_or_stays_empty() {
    let filled = ppm::util::vec_with_dimensions(3, 2, true).unwrap();
    assert_eq!(filled.len(), 6);
    assert!(filled.iter().all(|p| *p == Rgb::black()));
    let empty = ppm::util::vec_with_dimensions(3, 2, false).unwrap();
    assert!(empty.is_empty());
    assert_eq!(
        ppm::util::vec_with_dimensions(0, 2, true).map(|_| ()),
        Err(ImageError::InvalidDimensions(0, 2))
    );
    assert_eq!(
        ppm::util::vec_with_dimensions(2, 0, false).map(|_| ()),
        Err(ImageError::InvalidDimensions(2, 0))
    );
}
