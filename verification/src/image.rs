use vstd::prelude::*;

use crate::ascii::{lemma_num_head_bound, toks_at};
use crate::codec::{
    encode_bytes, lemma_pixels_from_len, lemma_round_trip, magic_message, ppm_parse, PpmParse,
};
use crate::colour::Rgb;
use crate::error::{ImageError, ImageResult};
use crate::util::vec_with_dimensions;

verus! {

/// A `width` by `height` raster of RGB pixels, stored row-major: the pixel
/// at column `x` of row `y` sits at index `y * width + x`.
///
/// Both dimensions are positive and the pixel vector holds exactly
/// `width * height` entries; the constructors reject anything else.
#[derive(Clone)]
pub struct Image {
    width: u32,
    height: u32,
    maxval: u8,
    values: Vec<Rgb>,
}

impl View for Image {
    type V = Seq<Rgb>;

    /// The image viewed as its row-major pixel sequence.
    closed spec fn view(&self) -> Seq<Rgb> {
        self.values@
    }
}

impl Image {
    /// The width, for specifications.
    pub closed spec fn spec_width(&self) -> u32 {
        self.width
    }

    /// The height, for specifications.
    pub closed spec fn spec_height(&self) -> u32 {
        self.height
    }

    /// The maximum channel value declared in the header, for
    /// specifications.
    pub closed spec fn spec_maxval(&self) -> u8 {
        self.maxval
    }

    /// Structural invariant: positive dimensions and a pixel sequence of
    /// exactly `width * height` entries.
    pub open spec fn wf(&self) -> bool {
        &&& self.spec_width() > 0
        &&& self.spec_height() > 0
        &&& self@.len() == self.spec_width() * self.spec_height()
    }

    /// The pixel at column `x` of row `y`, for specifications.
    pub open spec fn spec_pixel(&self, x: int, y: int) -> Rgb {
        self@[y * self.spec_width() + x]
    }

    /// Create an image of the given dimensions filled with the default
    /// (black) colour, or fail with `InvalidDimensions` when either
    /// dimension is zero.
    pub fn new(width: u32, height: u32, maxval: u8) -> (r: ImageResult<Image>)
        requires
            width * height <= usize::MAX,
        ensures
            match r {
                Ok(img) => {
                    &&& width > 0 && height > 0
                    &&& img.wf()
                    &&& img.spec_width() == width
                    &&& img.spec_height() == height
                    &&& img.spec_maxval() == maxval
                    &&& forall|i: int|
                        0 <= i < img@.len() ==> img@[i] == (Rgb { r: 0u8, g: 0u8, b: 0u8 })
                },
                Err(e) => (width == 0 || height == 0) && e == ImageError::InvalidDimensions(
                    width,
                    height,
                ),
            },
    {
        let values = match vec_with_dimensions(width, height, true) {
            Ok(v) => v,
            Err(e) => {
                return Err(e);
            },
        };
        Ok(Image { width, height, maxval, values })
    }

    /// Wrap a caller-supplied pixel vector, or fail with
    /// `InvalidDimensions` when a dimension is zero or the vector's length
    /// is not `width * height`.
    pub fn with_values(width: u32, height: u32, maxval: u8, values: Vec<Rgb>) -> (r: ImageResult<
        Image,
    >)
        ensures
            match r {
                Ok(img) => {
                    &&& width > 0 && height > 0
                    &&& values@.len() == width * height
                    &&& img.wf()
                    &&& img.spec_width() == width
                    &&& img.spec_height() == height
                    &&& img.spec_maxval() == maxval
                    &&& img@ == values@
                },
                Err(e) => (width == 0 || height == 0 || values@.len() != width * height) && e
                    == ImageError::InvalidDimensions(width, height),
            },
    {
        if width == 0 || height == 0 {
            return Err(ImageError::InvalidDimensions(width, height));
        }
        let n: usize = values.len();
        proof {
            assert(width as int * height as int <= u64::MAX) by (nonlinear_arith)
                requires
                    width <= u32::MAX,
                    height <= u32::MAX,
            ;
        }
        if n as u64 != width as u64 * height as u64 {
            return Err(ImageError::InvalidDimensions(width, height));
        }
        Ok(Image { width, height, maxval, values })
    }

    /// The width and height, in that order.
    pub fn dimensions(&self) -> (r: (u32, u32))
        ensures
            r.0 == self.spec_width(),
            r.1 == self.spec_height(),
    {
        (self.width, self.height)
    }

    /// The maximum channel value declared for encoding.
    pub fn maxval(&self) -> (r: u8)
        ensures
            r == self.spec_maxval(),
    {
        self.maxval
    }

    /// The linear index of the pixel at column `x` of row `y`, or
    /// `InvalidLocation` when either coordinate is out of range.
    fn index(&self, x: u32, y: u32) -> (r: ImageResult<usize>)
        requires
            self.wf(),
        ensures
            match r {
                Ok(i) => x < self.spec_width() && y < self.spec_height() && i == y
                    * self.spec_width() + x && i < self@.len(),
                Err(e) => (x >= self.spec_width() || y >= self.spec_height()) && e
                    == ImageError::InvalidLocation(x, y),
            },
    {
        if x >= self.width || y >= self.height {
            return Err(ImageError::InvalidLocation(x, y));
        }
        proof {
            assert(y * self.spec_width() + x < self.spec_width() * self.spec_height()
                <= u64::MAX) by (nonlinear_arith)
                requires
                    x < self.spec_width(),
                    y < self.spec_height(),
                    self.spec_width() <= u32::MAX,
                    self.spec_height() <= u32::MAX,
            ;
        }
        let i: u64 = y as u64 * self.width as u64 + x as u64;
        // An exec call to `len` is what tells the verifier that the pixel
        // count, and so `i`, fits in `usize`.
        let _len: usize = self.values.len();
        Ok(i as usize)
    }

    /// The pixel at column `x` of row `y`, or `InvalidLocation` when
    /// either coordinate is out of range.
    pub fn get(&self, x: u32, y: u32) -> (r: ImageResult<Rgb>)
        requires
            self.wf(),
        ensures
            match r {
                Ok(p) => x < self.spec_width() && y < self.spec_height() && p == self.spec_pixel(
                    x as int,
                    y as int,
                ),
                Err(e) => (x >= self.spec_width() || y >= self.spec_height()) && e
                    == ImageError::InvalidLocation(x, y),
            },
    {
        let i: usize = match self.index(x, y) {
            Ok(i) => i,
            Err(e) => {
                return Err(e);
            },
        };
        Ok(self.values[i])
    }

    /// Overwrite the pixel at column `x` of row `y`, or fail with
    /// `InvalidLocation`, leaving the image unchanged, when either
    /// coordinate is out of range.
    pub fn set(&mut self, x: u32, y: u32, value: Rgb) -> (r: ImageResult<()>)
        requires
            old(self).wf(),
        ensures
            final(self).wf(),
            final(self).spec_width() == old(self).spec_width(),
            final(self).spec_height() == old(self).spec_height(),
            final(self).spec_maxval() == old(self).spec_maxval(),
            match r {
                Ok(_) => {
                    &&& x < old(self).spec_width() && y < old(self).spec_height()
                    &&& final(self)@ == old(self)@.update(
                        y * old(self).spec_width() + x,
                        value,
                    )
                },
                Err(e) => {
                    &&& (x >= old(self).spec_width() || y >= old(self).spec_height())
                    &&& e == ImageError::InvalidLocation(x, y)
                    &&& final(self)@ == old(self)@
                },
            },
    {
        let i: usize = match self.index(x, y) {
            Ok(i) => i,
            Err(e) => {
                return Err(e);
            },
        };
        self.values.set(i, value);
        Ok(())
    }

    /// The image's pixel vector, row-major.
    pub fn values(&self) -> (r: &Vec<Rgb>)
        ensures
            r@ == self@,
    {
        &self.values
    }

    /// Decode the byte stream `s` as plain PPM text.  A well-formed
    /// stream yields the image it describes; anything else yields exactly
    /// the error that [`ppm_parse`] assigns to it: `UnexpectedEof` for a
    /// stream that ends too early, a `FormatError` naming the bytes of a
    /// wrong magic, a `ParseIntError` for a malformed number, and
    /// `InvalidDimensions` for a zero width or height.
    pub fn from_bytes(s: &[u8]) -> (r: ImageResult<Image>)
        ensures
            match ppm_parse(s@) {
                PpmParse::Parsed(c) => {
                    &&& r matches Ok(img)
                    &&& img.wf()
                    &&& img.spec_width() == c.width
                    &&& img.spec_height() == c.height
                    &&& img.spec_maxval() == c.maxval
                    &&& img@ == c.pixels
                },
                PpmParse::TruncatedMagic => r matches Err(e) && e == ImageError::UnexpectedEof,
                PpmParse::WrongMagic(a, b) => r matches Err(e) && e matches
                    ImageError::FormatError(m) && m@ == magic_message(a, b),
                PpmParse::MissingNumber => r matches Err(e) && e == ImageError::UnexpectedEof,
                PpmParse::NotANumber => r matches Err(e) && e matches ImageError::ParseIntError(m)
                    && m@ == "invalid digit found in string"@,
                PpmParse::NumberTooLarge => r matches Err(e) && e matches
                    ImageError::ParseIntError(m) && m@ == "number too large to fit in target type"@,
                PpmParse::ZeroDimension(w, h) => r matches Err(e) && e
                    == ImageError::InvalidDimensions(w, h),
            },
    {
        match crate::codec::decode(s) {
            Ok((width, height, maxval, values)) => {
                proof {
                    let ts = toks_at(s@, 2);
                    lemma_num_head_bound(ts, u32::MAX as nat);
                    lemma_num_head_bound(ts.skip(1), u32::MAX as nat);
                    match ppm_parse(s@) {
                        PpmParse::Parsed(c) => {
                            lemma_pixels_from_len(ts.skip(3), c.width as nat * c.height as nat);
                        },
                        _ => {},
                    }
                }
                Ok(Image { width, height, maxval, values })
            },
            Err(e) => Err(e),
        }
    }

    /// Encode the image as plain PPM text, appending to `out` exactly the
    /// reference encoding of its header and pixels.
    pub fn write_ascii(&self, out: &mut Vec<u8>)
        requires
            self.wf(),
        ensures
            final(out)@ == old(out)@ + encode_bytes(
                self.spec_width(),
                self.spec_height(),
                self.spec_maxval(),
                self@,
            ),
    {
        crate::codec::encode(self.width, self.height, self.maxval, &self.values, out)
    }
}

/// Every pixel of a buffer filled with the default colour reads back as
/// that colour at every in-range coordinate — together with the contracts
/// of `new` and `get`, this is what a freshly created image shows.
pub proof fn lemma_create_default(img: Image, x: u32, y: u32)
    requires
        img.wf(),
        forall|i: int| 0 <= i < img@.len() ==> img@[i] == (Rgb { r: 0u8, g: 0u8, b: 0u8 }),
        x < img.spec_width(),
        y < img.spec_height(),
    ensures
        img.spec_pixel(x as int, y as int) == (Rgb { r: 0u8, g: 0u8, b: 0u8 }),
{
    assert(y * img.spec_width() + x < img.spec_width() * img.spec_height()) by (nonlinear_arith)
        requires
            x < img.spec_width(),
            y < img.spec_height(),
    ;
}

/// Round trip at the image level: decoding what `write_ascii` produces
/// for a well-formed image reads back its width, height, maxval and pixel
/// sequence unchanged.
pub proof fn lemma_image_round_trip(img: Image)
    requires
        img.wf(),
    ensures
        ppm_parse(
            encode_bytes(img.spec_width(), img.spec_height(), img.spec_maxval(), img@),
        ) matches PpmParse::Parsed(c) && c.width == img.spec_width() && c.height
            == img.spec_height() && c.maxval == img.spec_maxval() && c.pixels == img@,
{
    lemma_round_trip(img.spec_width(), img.spec_height(), img.spec_maxval(), img@);
}

} // verus!
