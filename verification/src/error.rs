use vstd::prelude::*;
use vstd::string::StringExecFns;

use crate::ascii::{dec_chars, push_dec_chars};

verus! {

/// Shorthand for results whose failures are [`ImageError`] values.
pub type ImageResult<T> = Result<T, ImageError>;

/// The closed set of failures that image handling can surface.
///
/// Every fallible operation reports one of these kinds; nothing is folded
/// into an opaque catch-all.  `IoError` never arises inside the library
/// itself, which performs no reads or writes: it is the kind under which a
/// caller doing the file handling reports an underlying failure.
#[derive(Clone, Debug, PartialEq, Eq)]
pub enum ImageError {
    /// A width and height of which at least one is zero.
    InvalidDimensions(u32, u32),
    /// A pixel coordinate outside the buffer.
    InvalidLocation(u32, u32),
    /// The input ended before all required tokens were read.
    UnexpectedEof,
    /// The input does not follow the `P3` format; the message names the
    /// offending bytes.
    FormatError(String),
    /// An underlying read or write failed; the message describes it.
    IoError(String),
    /// A token that should be a number is not a valid one; the message
    /// says why.
    ParseIntError(String),
}

impl ImageError {
    /// The description of the error, as characters.
    pub open spec fn message_view(&self) -> Seq<char> {
        match self {
            ImageError::InvalidDimensions(w, h) => "Invalid image dimensions: "@ + dec_chars(
                *w as nat,
            ) + "x"@ + dec_chars(*h as nat),
            ImageError::InvalidLocation(x, y) => "Invalid pixel location: ("@ + dec_chars(
                *x as nat,
            ) + ", "@ + dec_chars(*y as nat) + ")"@,
            ImageError::UnexpectedEof => "Unexpected EOF"@,
            ImageError::FormatError(s) => "Format error: "@ + s@,
            ImageError::IoError(s) => s@,
            ImageError::ParseIntError(s) => s@,
        }
    }

    /// Render the error as a human-readable message.
    pub fn message(&self) -> (r: String)
        ensures
            r@ == self.message_view(),
    {
        match self {
            ImageError::InvalidDimensions(w, h) => {
                let mut s: String = "Invalid image dimensions: ".to_owned();
                push_dec_chars(&mut s, *w);
                s.append("x");
                push_dec_chars(&mut s, *h);
                s
            },
            ImageError::InvalidLocation(x, y) => {
                let mut s: String = "Invalid pixel location: (".to_owned();
                push_dec_chars(&mut s, *x);
                s.append(", ");
                push_dec_chars(&mut s, *y);
                s.append(")");
                s
            },
            ImageError::UnexpectedEof => "Unexpected EOF".to_owned(),
            ImageError::FormatError(s) => {
                let mut m: String = "Format error: ".to_owned();
                m.append(s.as_str());
                m
            },
            ImageError::IoError(s) => s.clone(),
            ImageError::ParseIntError(s) => s.clone(),
        }
    }
}

} // verus!
