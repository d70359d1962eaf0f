use vstd::prelude::*;

use crate::colour::Rgb;
use crate::error::{ImageError, ImageResult};

verus! {

/// Create the pixel vector for a `width` by `height` image, rejecting zero
/// dimensions.  With `fill` the vector holds `width * height` default
/// (black) pixels; without it the vector is returned empty, ready to be
/// filled by a decoder.
pub fn vec_with_dimensions(width: u32, height: u32, fill: bool) -> (r: ImageResult<Vec<Rgb>>)
    requires
        fill ==> width * height <= usize::MAX,
    ensures
        match r {
            Ok(v) => width > 0 && height > 0 && v@.len() == if fill {
                width * height
            } else {
                0int
            } && (forall|i: int| 0 <= i < v@.len() ==> v@[i] == (Rgb { r: 0u8, g: 0u8, b: 0u8 })),
            Err(e) => (width == 0 || height == 0) && e == ImageError::InvalidDimensions(
                width,
                height,
            ),
        },
{
    if width == 0 || height == 0 {
        return Err(ImageError::InvalidDimensions(width, height));
    }
    let mut v: Vec<Rgb> = Vec::new();
    if fill {
        let total: u64 = width as u64 * height as u64;
        let mut i: u64 = 0;
        while i < total
            invariant
                total == width * height,
                i <= total,
                v@.len() == i,
                forall|j: int| 0 <= j < v@.len() ==> v@[j] == (Rgb { r: 0u8, g: 0u8, b: 0u8 }),
            decreases total - i,
        {
            v.push(Rgb::default());
            i = i + 1;
        }
    }
    Ok(v)
}

} // verus!
