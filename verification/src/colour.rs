use vstd::prelude::*;

use crate::codec::{push_pad3, rgb_ascii};

verus! {

/// An RGB colour with byte-valued channels in `[0, 255]`.
///
/// The buffer stores colours in this byte representation; scaling to and
/// from normalized float channels is a boundary concern left to callers.
#[derive(Clone, Copy, Debug, PartialEq, Eq, Structural)]
pub struct Rgb {
    pub r: u8,
    pub g: u8,
    pub b: u8,
}

impl Rgb {
    /// Construct a colour from its three channels.
    pub fn new(r: u8, g: u8, b: u8) -> (c: Rgb)
        ensures
            c == (Rgb { r, g, b }),
    {
        Rgb { r, g, b }
    }

    /// The colour with every channel at full intensity.
    pub fn white() -> (c: Rgb)
        ensures
            c == (Rgb { r: 255u8, g: 255u8, b: 255u8 }),
    {
        Rgb { r: 255, g: 255, b: 255 }
    }

    /// The colour with every channel at zero.
    pub fn black() -> (c: Rgb)
        ensures
            c == (Rgb { r: 0u8, g: 0u8, b: 0u8 }),
    {
        Rgb { r: 0, g: 0, b: 0 }
    }

    /// Append the three channels to `out` as raw bytes.
    pub fn write_raw(&self, out: &mut Vec<u8>)
        ensures
            final(out)@ == old(out)@ + seq![self.r, self.g, self.b],
    {
        out.push(self.r);
        out.push(self.g);
        out.push(self.b);
        proof {
            assert(out@ =~= old(out)@ + seq![self.r, self.g, self.b]);
        }
    }

    /// Append the three channels to `out` as space-separated decimal
    /// text, each padded to at least three bytes.
    pub fn write_ascii(&self, out: &mut Vec<u8>)
        ensures
            final(out)@ == old(out)@ + rgb_ascii(*self),
    {
        push_pad3(out, self.r);
        out.push(32);
        push_pad3(out, self.g);
        out.push(32);
        push_pad3(out, self.b);
        proof {
            assert(out@ =~= old(out)@ + rgb_ascii(*self));
        }
    }
}

impl Default for Rgb {
    /// The default colour is black.
    fn default() -> (c: Rgb)
        ensures
            c == (Rgb { r: 0u8, g: 0u8, b: 0u8 }),
    {
        Rgb { r: 0, g: 0, b: 0 }
    }
}

} // verus!
