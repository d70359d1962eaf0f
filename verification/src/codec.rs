use vstd::prelude::*;

use vstd::string::StringExecFns;

use crate::ascii::{
    dec_bytes, dec_chars, is_digit, is_ws, lemma_dec_bytes_digits, lemma_parse_dec_bytes,
    lemma_toks_chunk, lemma_toks_shift, lemma_toks_ws_prefix, next_token, num_head, parse_digits,
    parse_num, push_dec_bytes, push_dec_chars, toks_at, NumParse,
};
use crate::colour::Rgb;
use crate::error::ImageError;
use crate::util::vec_with_dimensions;

verus! {

// ---------------------------------------------------------------------------
// The wire format, specified
//
// A plain PPM stream is the two magic bytes `P3` followed by decimal
// tokens separated by ASCII whitespace: width, height, maxval, then three
// channel values for each of the `width * height` pixels, row-major.
// `ppm_parse` is the reference reading of a byte sequence under that
// grammar; `encode_bytes` is the reference writing of an image under it.
// ---------------------------------------------------------------------------

/// What a well-formed stream holds: the header numbers and the row-major
/// pixel sequence.
pub struct PpmContents {
    pub width: u32,
    pub height: u32,
    pub maxval: u8,
    pub pixels: Seq<Rgb>,
}

/// The outcome of reading a byte stream as plain PPM.
pub enum PpmParse {
    /// The stream is well-formed and holds these contents.
    Parsed(PpmContents),
    /// The stream ends before the two magic bytes.
    TruncatedMagic,
    /// The first two bytes are not `P3`.
    WrongMagic(u8, u8),
    /// A required number token is missing.
    MissingNumber,
    /// A required number token holds a byte that is not a digit.
    NotANumber,
    /// A required number token passes its type's bound.
    NumberTooLarge,
    /// The header declares a zero width or height.
    ZeroDimension(u32, u32),
}

/// Read `count` pixels from the front of the tokens `ts`, three channel
/// values of at most 255 each.
pub open spec fn pixels_from(ts: Seq<Seq<u8>>, count: nat) -> PpmPixels
    decreases count,
{
    if count == 0 {
        PpmPixels::Pix(Seq::empty())
    } else {
        match num_head(ts, 255) {
            NumParse::Missing => PpmPixels::Missing,
            NumParse::NotDigit => PpmPixels::NotDigit,
            NumParse::TooBig => PpmPixels::TooBig,
            NumParse::Num(r) => match num_head(ts.skip(1), 255) {
                NumParse::Missing => PpmPixels::Missing,
                NumParse::NotDigit => PpmPixels::NotDigit,
                NumParse::TooBig => PpmPixels::TooBig,
                NumParse::Num(g) => match num_head(ts.skip(2), 255) {
                    NumParse::Missing => PpmPixels::Missing,
                    NumParse::NotDigit => PpmPixels::NotDigit,
                    NumParse::TooBig => PpmPixels::TooBig,
                    NumParse::Num(b) => match pixels_from(ts.skip(3), (count - 1) as nat) {
                        PpmPixels::Pix(rest) => PpmPixels::Pix(
                            seq![Rgb { r: r as u8, g: g as u8, b: b as u8 }] + rest,
                        ),
                        e => e,
                    },
                },
            },
        }
    }
}

/// The outcome of reading a run of pixels out of the token stream.
pub enum PpmPixels {
    /// All pixels were present and valid.
    Pix(Seq<Rgb>),
    /// The tokens ran out first.
    Missing,
    /// A channel token holds a byte that is not a digit.
    NotDigit,
    /// A channel token's value passes 255.
    TooBig,
}

/// The reference reading of the byte sequence `s` as plain PPM.  The
/// header numbers are read in the order width, height, maxval; the
/// dimensions are then checked, and exactly `width * height` pixel triples
/// are read.  Anything after them is ignored.
pub open spec fn ppm_parse(s: Seq<u8>) -> PpmParse {
    if s.len() < 2 {
        PpmParse::TruncatedMagic
    } else if s[0] != 80 || s[1] != 51 {
        PpmParse::WrongMagic(s[0], s[1])
    } else {
        let ts = toks_at(s, 2);
        match num_head(ts, u32::MAX as nat) {
            NumParse::Missing => PpmParse::MissingNumber,
            NumParse::NotDigit => PpmParse::NotANumber,
            NumParse::TooBig => PpmParse::NumberTooLarge,
            NumParse::Num(w) => match num_head(ts.skip(1), u32::MAX as nat) {
                NumParse::Missing => PpmParse::MissingNumber,
                NumParse::NotDigit => PpmParse::NotANumber,
                NumParse::TooBig => PpmParse::NumberTooLarge,
                NumParse::Num(h) => match num_head(ts.skip(2), 255) {
                    NumParse::Missing => PpmParse::MissingNumber,
                    NumParse::NotDigit => PpmParse::NotANumber,
                    NumParse::TooBig => PpmParse::NumberTooLarge,
                    NumParse::Num(m) => if w == 0 || h == 0 {
                        PpmParse::ZeroDimension(w as u32, h as u32)
                    } else {
                        match pixels_from(ts.skip(3), w * h) {
                            PpmPixels::Missing => PpmParse::MissingNumber,
                            PpmPixels::NotDigit => PpmParse::NotANumber,
                            PpmPixels::TooBig => PpmParse::NumberTooLarge,
                            PpmPixels::Pix(ps) => PpmParse::Parsed(
                                PpmContents {
                                    width: w as u32,
                                    height: h as u32,
                                    maxval: m as u8,
                                    pixels: ps,
                                },
                            ),
                        }
                    },
                },
            },
        }
    }
}

/// The message that a stream whose magic bytes are `a` and `b` is refused
/// with.
pub open spec fn magic_message(a: u8, b: u8) -> Seq<char> {
    "Invalid magic number ["@ + dec_chars(a as nat) + ", "@ + dec_chars(b as nat) + "]"@
}

/// Render the refusal message for the magic bytes `a` and `b`.
fn magic_msg(a: u8, b: u8) -> (r: String)
    ensures
        r@ == magic_message(a, b),
{
    let mut s: String = "Invalid magic number [".to_owned();
    push_dec_chars(&mut s, a as u32);
    s.append(", ");
    push_dec_chars(&mut s, b as u32);
    s.append("]");
    s
}

/// Read the next token at or after `pos` as a decimal number of at most
/// `bound`, reporting a missing token as `UnexpectedEof` and a malformed
/// one as `ParseIntError`.  On success the returned position sits right
/// after the token, so that the tokens from there on are the remaining
/// ones.
fn next_num(s: &[u8], pos: usize, bound: u32) -> (r: Result<(u32, usize), ImageError>)
    requires
        pos <= s@.len(),
    ensures
        match r {
            Ok((v, p2)) => {
                &&& num_head(toks_at(s@, pos as int), bound as nat) == NumParse::Num(v as nat)
                &&& v <= bound
                &&& p2 <= s@.len()
                &&& toks_at(s@, p2 as int) == toks_at(s@, pos as int).skip(1)
            },
            Err(e) => match num_head(toks_at(s@, pos as int), bound as nat) {
                NumParse::Missing => e == ImageError::UnexpectedEof,
                NumParse::NotDigit => e matches ImageError::ParseIntError(m) && m@
                    == "invalid digit found in string"@,
                NumParse::TooBig => e matches ImageError::ParseIntError(m) && m@
                    == "number too large to fit in target type"@,
                NumParse::Num(_) => false,
            },
        },
{
    match next_token(s, pos) {
        None => Err(ImageError::UnexpectedEof),
        Some((a, b)) => {
            let ghost ts = toks_at(s@, pos as int);
            let ghost tok = s@.subrange(a as int, b as int);
            proof {
                assert(ts[0] == tok);
                assert(ts.skip(1) =~= toks_at(s@, b as int));
            }
            match parse_num(s, a, b, bound) {
                Ok(v) => Ok((v, b)),
                Err(e) => Err(e),
            }
        },
    }
}

/// Read the byte stream `s` as plain PPM, yielding the header numbers and
/// the row-major pixel vector of a well-formed stream, and for anything
/// else exactly the error that [`ppm_parse`] assigns to it.
#[verifier::loop_isolation(false)]
pub fn decode(s: &[u8]) -> (r: Result<(u32, u32, u8, Vec<Rgb>), ImageError>)
    ensures
        match ppm_parse(s@) {
            PpmParse::Parsed(c) => r matches Ok(t) && t.0 == c.width && t.1 == c.height && t.2
                == c.maxval && t.3@ == c.pixels,
            PpmParse::TruncatedMagic => r matches Err(e) && e == ImageError::UnexpectedEof,
            PpmParse::WrongMagic(a, b) => r matches Err(e) && e matches ImageError::FormatError(m)
                && m@ == magic_message(a, b),
            PpmParse::MissingNumber => r matches Err(e) && e == ImageError::UnexpectedEof,
            PpmParse::NotANumber => r matches Err(e) && e matches ImageError::ParseIntError(m)
                && m@ == "invalid digit found in string"@,
            PpmParse::NumberTooLarge => r matches Err(e) && e matches ImageError::ParseIntError(m)
                && m@ == "number too large to fit in target type"@,
            PpmParse::ZeroDimension(w, h) => r matches Err(e) && e == ImageError::InvalidDimensions(
                w,
                h,
            ),
        },
{
    let n: usize = s.len();
    if n < 2 {
        return Err(ImageError::UnexpectedEof);
    }
    if s[0] != 80 || s[1] != 51 {
        return Err(ImageError::FormatError(magic_msg(s[0], s[1])));
    }
    let ghost ts = toks_at(s@, 2);
    let (width, p1) = match next_num(s, 2, u32::MAX) {
        Ok(t) => t,
        Err(e) => {
            return Err(e);
        },
    };
    proof {
        assert(toks_at(s@, p1 as int) == ts.skip(1));
        assert(ts.len() >= 1);
    }
    let (height, p2) = match next_num(s, p1, u32::MAX) {
        Ok(t) => t,
        Err(e) => {
            return Err(e);
        },
    };
    proof {
        assert(ts.skip(1).len() >= 1);
        assert(ts.len() >= 2);
        assert(toks_at(s@, p2 as int) =~= ts.skip(2));
    }
    let (mv, p3) = match next_num(s, p2, 255) {
        Ok(t) => t,
        Err(e) => {
            return Err(e);
        },
    };
    proof {
        assert(ts.skip(2).len() >= 1);
        assert(ts.len() >= 3);
        assert(toks_at(s@, p3 as int) =~= ts.skip(3));
    }
    let maxval: u8 = mv as u8;
    let mut pixels: Vec<Rgb> = match vec_with_dimensions(width, height, false) {
        Ok(v) => v,
        Err(e) => {
            return Err(e);
        },
    };
    proof {
        assert(width as int * height as int <= u64::MAX) by (nonlinear_arith)
            requires
                width <= u32::MAX,
                height <= u32::MAX,
        ;
    }
    let total: u64 = width as u64 * height as u64;
    let ghost tsp = toks_at(s@, p3 as int);
    let mut pos: usize = p3;
    let mut i: u64 = 0;
    while i < total
        invariant
            i <= total,
            pixels@.len() == i,
            pos <= s@.len(),
            pixels_from(tsp, total as nat) == (match pixels_from(
                toks_at(s@, pos as int),
                (total - i) as nat,
            ) {
                PpmPixels::Pix(rest) => PpmPixels::Pix(pixels@ + rest),
                e => e,
            }),
        decreases total - i,
    {
        let ghost rem = toks_at(s@, pos as int);
        let (cr, q1) = match next_num(s, pos, 255) {
            Ok(t) => t,
            Err(e) => {
                return Err(e);
            },
        };
        proof {
            assert(rem.len() >= 1);
        }
        let (cg, q2) = match next_num(s, q1, 255) {
            Ok(t) => t,
            Err(e) => {
                return Err(e);
            },
        };
        proof {
            assert(rem.skip(1).len() >= 1);
            assert(rem.len() >= 2);
            assert(toks_at(s@, q2 as int) =~= rem.skip(2));
        }
        let (cb, q3) = match next_num(s, q2, 255) {
            Ok(t) => t,
            Err(e) => {
                return Err(e);
            },
        };
        proof {
            assert(rem.skip(2).len() >= 1);
            assert(rem.len() >= 3);
            assert(toks_at(s@, q3 as int) =~= rem.skip(3));
        }
        let p = Rgb::new(cr as u8, cg as u8, cb as u8);
        let ghost pre = pixels@;
        pixels.push(p);
        proof {
            let rest_parse = pixels_from(toks_at(s@, q3 as int), (total - i - 1) as nat);
            assert(pixels_from(rem, (total - i) as nat) == (match rest_parse {
                PpmPixels::Pix(rest) => PpmPixels::Pix(seq![p] + rest),
                e => e,
            }));
            match rest_parse {
                PpmPixels::Pix(rest) => {
                    assert(pre + (seq![p] + rest) =~= pixels@ + rest);
                },
                _ => {},
            }
        }
        pos = q3;
        i = i + 1;
    }
    proof {
        assert(pixels_from(toks_at(s@, pos as int), 0) == PpmPixels::Pix(Seq::<Rgb>::empty()));
        assert(pixels@ + Seq::<Rgb>::empty() =~= pixels@);
    }
    Ok((width, height, maxval, pixels))
}

// ---------------------------------------------------------------------------
// The wire format, written out
// ---------------------------------------------------------------------------

/// A channel value padded on the left with spaces to at least three
/// bytes.  The padding is cosmetic only: the grammar needs just some
/// whitespace between numbers.
pub open spec fn pad3(n: nat) -> Seq<u8> {
    if n < 10 {
        seq![32u8, 32u8] + dec_bytes(n)
    } else if n < 100 {
        seq![32u8] + dec_bytes(n)
    } else {
        dec_bytes(n)
    }
}

/// One pixel as text: its three channels, space-separated.
pub open spec fn rgb_ascii(p: Rgb) -> Seq<u8> {
    pad3(p.r as nat) + seq![32u8] + pad3(p.g as nat) + seq![32u8] + pad3(p.b as nat)
}

/// One row of pixels as text: each pixel followed by a space, and a line
/// feed after the last.
pub open spec fn row_ascii(ps: Seq<Rgb>) -> Seq<u8>
    decreases ps.len(),
{
    if ps.len() == 0 {
        seq![10u8]
    } else {
        rgb_ascii(ps[0]) + seq![32u8] + row_ascii(ps.skip(1))
    }
}

/// `rows` rows of `w` pixels each, taken from the front of `ps`.
pub open spec fn rows_ascii(ps: Seq<Rgb>, w: nat, rows: nat) -> Seq<u8>
    decreases rows,
{
    if rows == 0 {
        Seq::empty()
    } else {
        row_ascii(ps.take(w as int)) + rows_ascii(ps.skip(w as int), w, (rows - 1) as nat)
    }
}

/// The reference encoding of an image: the magic line, the dimensions
/// line (width first), the maxval line, then one line of pixel data per
/// row.
pub open spec fn encode_bytes(width: u32, height: u32, maxval: u8, pixels: Seq<Rgb>) -> Seq<u8> {
    seq![80u8, 51u8, 10u8] + dec_bytes(width as nat) + seq![32u8] + dec_bytes(height as nat)
        + seq![10u8] + dec_bytes(maxval as nat) + seq![10u8] + rows_ascii(
        pixels,
        width as nat,
        height as nat,
    )
}

// ---------------------------------------------------------------------------
// Round trip: what the encoder writes, the parser reads back
// ---------------------------------------------------------------------------

/// The space padding that [`pad3`] puts in front of the digits of `n`.
pub open spec fn pad_ws(n: nat) -> Seq<u8> {
    if n < 10 {
        seq![32u8, 32u8]
    } else if n < 100 {
        seq![32u8]
    } else {
        Seq::empty()
    }
}

/// A padded channel value is its padding, then its digits.
proof fn lemma_pad3_split(n: nat)
    ensures
        pad3(n) == pad_ws(n) + dec_bytes(n),
        forall|k: int| 0 <= k < pad_ws(n).len() ==> is_ws(#[trigger] pad_ws(n)[k]),
{
    if n >= 100 {
        assert(Seq::<u8>::empty() + dec_bytes(n) =~= dec_bytes(n));
    }
}

/// The digits of `n`, as a token: nonempty and free of whitespace.
proof fn lemma_dec_bytes_token(n: nat)
    ensures
        dec_bytes(n).len() >= 1,
        forall|k: int| 0 <= k < dec_bytes(n).len() ==> !is_ws(#[trigger] dec_bytes(n)[k]),
{
    lemma_dec_bytes_digits(n);
    assert(forall|k: int|
        0 <= k < dec_bytes(n).len() ==> is_digit(#[trigger] dec_bytes(n)[k]) && !is_ws(
            dec_bytes(n)[k],
        ));
}

/// The channel tokens that the pixels `ps` contribute, three per pixel.
pub open spec fn pixel_toks(ps: Seq<Rgb>) -> Seq<Seq<u8>>
    decreases ps.len(),
{
    if ps.len() == 0 {
        Seq::empty()
    } else {
        seq![
            dec_bytes(ps[0].r as nat),
            dec_bytes(ps[0].g as nat),
            dec_bytes(ps[0].b as nat),
        ] + pixel_toks(ps.skip(1))
    }
}

/// The channel tokens of back-to-back pixel runs line up.
proof fn lemma_pixel_toks_append(a: Seq<Rgb>, b: Seq<Rgb>)
    ensures
        pixel_toks(a + b) == pixel_toks(a) + pixel_toks(b),
    decreases a.len(),
{
    if a.len() == 0 {
        assert(a + b =~= b);
        assert(pixel_toks(a) + pixel_toks(b) =~= pixel_toks(b));
    } else {
        assert((a + b).skip(1) =~= a.skip(1) + b);
        assert((a + b)[0] == a[0]);
        lemma_pixel_toks_append(a.skip(1), b);
        assert(pixel_toks(a + b) =~= pixel_toks(a) + pixel_toks(b));
    }
}

/// The tokens of one encoded row, followed by anything, are the row's
/// channel tokens followed by the tokens of the rest.
#[verifier::rlimit(50)]
proof fn lemma_row_toks(ps: Seq<Rgb>, rest: Seq<u8>)
    ensures
        toks_at(row_ascii(ps) + rest, 0) == pixel_toks(ps) + toks_at(rest, 0),
    decreases ps.len(),
{
    if ps.len() == 0 {
        assert(row_ascii(ps) + rest =~= seq![10u8] + rest);
        lemma_toks_ws_prefix(seq![10u8], rest);
        assert(pixel_toks(ps) + toks_at(rest, 0) =~= toks_at(rest, 0));
    } else {
        let p = ps[0];
        let r = p.r as nat;
        let g = p.g as nat;
        let b = p.b as nat;
        lemma_pad3_split(r);
        lemma_pad3_split(g);
        lemma_pad3_split(b);
        lemma_dec_bytes_token(r);
        lemma_dec_bytes_token(g);
        lemma_dec_bytes_token(b);
        let bytes = row_ascii(ps) + rest;
        let rest1 = seq![32u8] + pad3(g) + seq![32u8] + pad3(b) + seq![32u8] + row_ascii(
            ps.skip(1),
        ) + rest;
        assert(bytes =~= pad_ws(r) + dec_bytes(r) + rest1);
        lemma_toks_chunk(pad_ws(r), dec_bytes(r), rest1);
        let pre2 = seq![32u8] + pad_ws(g);
        let rest2 = seq![32u8] + pad3(b) + seq![32u8] + row_ascii(ps.skip(1)) + rest;
        assert(rest1 =~= pre2 + dec_bytes(g) + rest2);
        lemma_toks_chunk(pre2, dec_bytes(g), rest2);
        let pre3 = seq![32u8] + pad_ws(b);
        let rest3 = seq![32u8] + (row_ascii(ps.skip(1)) + rest);
        assert(rest2 =~= pre3 + dec_bytes(b) + rest3);
        lemma_toks_chunk(pre3, dec_bytes(b), rest3);
        lemma_toks_ws_prefix(seq![32u8], row_ascii(ps.skip(1)) + rest);
        lemma_row_toks(ps.skip(1), rest);
        assert(toks_at(bytes, 0) =~= pixel_toks(ps) + toks_at(rest, 0));
    }
}

/// The tokens of a block of encoded rows, followed by anything, are the
/// pixels' channel tokens followed by the tokens of the rest.
proof fn lemma_rows_toks(ps: Seq<Rgb>, w: nat, rows: nat, rest: Seq<u8>)
    requires
        ps.len() == w * rows,
    ensures
        toks_at(rows_ascii(ps, w, rows) + rest, 0) == pixel_toks(ps) + toks_at(rest, 0),
    decreases rows,
{
    if rows == 0 {
        assert(rows_ascii(ps, w, rows) + rest =~= rest);
        assert(pixel_toks(ps) + toks_at(rest, 0) =~= toks_at(rest, 0));
    } else {
        assert(w * rows == w + w * (rows - 1)) by (nonlinear_arith)
            requires
                rows >= 1,
        ;
        let head = ps.take(w as int);
        let tail = ps.skip(w as int);
        assert(rows_ascii(ps, w, rows) + rest =~= row_ascii(head) + (rows_ascii(
            tail,
            w,
            (rows - 1) as nat,
        ) + rest));
        lemma_row_toks(head, rows_ascii(tail, w, (rows - 1) as nat) + rest);
        lemma_rows_toks(tail, w, (rows - 1) as nat, rest);
        lemma_pixel_toks_append(head, tail);
        assert(head + tail =~= ps);
        assert(pixel_toks(head) + (pixel_toks(tail) + toks_at(rest, 0)) =~= pixel_toks(ps)
            + toks_at(rest, 0));
    }
}

/// A successful pixel read yields exactly as many pixels as were asked
/// for.
pub proof fn lemma_pixels_from_len(ts: Seq<Seq<u8>>, count: nat)
    ensures
        pixels_from(ts, count) matches PpmPixels::Pix(ps) ==> ps.len() == count,
    decreases count,
{
    if count > 0 {
        lemma_pixels_from_len(ts.skip(3), (count - 1) as nat);
    }
}

/// Reading pixels back out of their own channel tokens gives the pixels.
proof fn lemma_pixels_from_pixel_toks(ps: Seq<Rgb>)
    ensures
        pixels_from(pixel_toks(ps), ps.len()) == PpmPixels::Pix(ps),
    decreases ps.len(),
{
    if ps.len() == 0 {
        assert(ps =~= Seq::<Rgb>::empty());
    } else {
        let p = ps[0];
        let tl = pixel_toks(ps);
        lemma_parse_dec_bytes(p.r as nat, 255);
        lemma_parse_dec_bytes(p.g as nat, 255);
        lemma_parse_dec_bytes(p.b as nat, 255);
        assert(tl[0] == dec_bytes(p.r as nat));
        assert(tl.skip(1)[0] == dec_bytes(p.g as nat));
        assert(tl.skip(2)[0] == dec_bytes(p.b as nat));
        assert(tl.skip(3) =~= pixel_toks(ps.skip(1)));
        lemma_pixels_from_pixel_toks(ps.skip(1));
        assert(num_head(tl, 255) == NumParse::Num(p.r as nat));
        assert(num_head(tl.skip(1), 255) == NumParse::Num(p.g as nat));
        assert(num_head(tl.skip(2), 255) == NumParse::Num(p.b as nat));
        assert((Rgb { r: ((p.r as nat) as u8), g: ((p.g as nat) as u8), b: ((p.b as nat) as u8) })
            == p);
        assert(seq![p] + ps.skip(1) =~= ps);
        assert(pixels_from(tl, ps.len()) == PpmPixels::Pix(seq![p] + ps.skip(1)));
    }
}

/// Decoding what the encoder wrote for a well-formed image yields the
/// image's own width, height, maxval and pixel sequence, channel for
/// channel: the byte representation makes the round trip exact.
pub proof fn lemma_round_trip(width: u32, height: u32, maxval: u8, pixels: Seq<Rgb>)
    requires
        width > 0,
        height > 0,
        pixels.len() == width as nat * height as nat,
    ensures
        ppm_parse(encode_bytes(width, height, maxval, pixels)) == PpmParse::Parsed(
            PpmContents { width, height, maxval, pixels },
        ),
{
    let enc = encode_bytes(width, height, maxval, pixels);
    let rows = rows_ascii(pixels, width as nat, height as nat);
    lemma_dec_bytes_token(width as nat);
    lemma_dec_bytes_token(height as nat);
    lemma_dec_bytes_token(maxval as nat);
    assert(enc[0] == 80 && enc[1] == 51 && enc.len() >= 3);
    lemma_toks_shift(enc, 2);
    let restw = seq![32u8] + dec_bytes(height as nat) + seq![10u8] + dec_bytes(maxval as nat)
        + seq![10u8] + rows;
    assert(enc.skip(2) =~= seq![10u8] + dec_bytes(width as nat) + restw);
    lemma_toks_chunk(seq![10u8], dec_bytes(width as nat), restw);
    let resth = seq![10u8] + dec_bytes(maxval as nat) + seq![10u8] + rows;
    assert(restw =~= seq![32u8] + dec_bytes(height as nat) + resth);
    lemma_toks_chunk(seq![32u8], dec_bytes(height as nat), resth);
    let restm = seq![10u8] + rows;
    assert(resth =~= seq![10u8] + dec_bytes(maxval as nat) + restm);
    lemma_toks_chunk(seq![10u8], dec_bytes(maxval as nat), restm);
    assert(restm =~= seq![10u8] + (rows + Seq::<u8>::empty()));
    lemma_toks_ws_prefix(seq![10u8], rows + Seq::<u8>::empty());
    lemma_rows_toks(pixels, width as nat, height as nat, Seq::empty());
    assert(toks_at(Seq::<u8>::empty(), 0) == Seq::<Seq<u8>>::empty());
    assert(pixel_toks(pixels) + Seq::<Seq<u8>>::empty() =~= pixel_toks(pixels));
    let ts = toks_at(enc, 2);
    assert(ts =~= seq![
        dec_bytes(width as nat),
        dec_bytes(height as nat),
        dec_bytes(maxval as nat),
    ] + pixel_toks(pixels));
    lemma_parse_dec_bytes(width as nat, u32::MAX as nat);
    lemma_parse_dec_bytes(height as nat, u32::MAX as nat);
    lemma_parse_dec_bytes(maxval as nat, 255);
    assert(ts[0] == dec_bytes(width as nat));
    assert(ts.skip(1)[0] == dec_bytes(height as nat));
    assert(ts.skip(2)[0] == dec_bytes(maxval as nat));
    assert(ts.skip(3) =~= pixel_toks(pixels));
    lemma_pixels_from_pixel_toks(pixels);
}

/// Append a channel value to `out`, padded on the left with spaces to at
/// least three bytes.
pub fn push_pad3(out: &mut Vec<u8>, v: u8)
    ensures
        final(out)@ == old(out)@ + pad3(v as nat),
{
    if v < 100 {
        out.push(32);
    }
    if v < 10 {
        out.push(32);
    }
    push_dec_bytes(out, v as u32);
    proof {
        assert(out@ =~= old(out)@ + pad3(v as nat));
    }
}

/// Write the image out as plain PPM text, appending exactly the
/// reference encoding of its header and pixels to `out`.
#[verifier::loop_isolation(false)]
pub fn encode(width: u32, height: u32, maxval: u8, pixels: &Vec<Rgb>, out: &mut Vec<u8>)
    requires
        width > 0,
        height > 0,
        pixels@.len() == width as nat * height as nat,
    ensures
        final(out)@ == old(out)@ + encode_bytes(width, height, maxval, pixels@),
{
    let ghost full = old(out)@ + encode_bytes(width, height, maxval, pixels@);
    let ghost ps = pixels@;
    out.push(80);
    out.push(51);
    out.push(10);
    push_dec_bytes(out, width);
    out.push(32);
    push_dec_bytes(out, height);
    out.push(10);
    push_dec_bytes(out, maxval as u32);
    out.push(10);
    proof {
        assert(ps.skip(0) =~= ps);
        assert(out@ + rows_ascii(ps.skip(0), width as nat, height as nat) =~= full);
    }
    let mut y: u32 = 0;
    while y < height
        invariant
            y <= height,
            y as nat * width as nat <= ps.len(),
            out@ + rows_ascii(ps.skip(y as int * width as int), width as nat, (height - y) as nat)
                == full,
        decreases height - y,
    {
        proof {
            assert((y + 1) as nat * width as nat <= height as nat * width as nat && y as nat
                * width as nat + width as nat == (y + 1) as nat * width as nat)
                by (nonlinear_arith)
                requires
                    y < height,
            ;
        }
        let ghost row = ps.skip(y as int * width as int).take(width as int);
        proof {
            assert(ps.skip(y as int * width as int).skip(width as int) =~= ps.skip(
                (y + 1) as int * width as int,
            ));
            assert(row.skip(0) =~= row);
            assert(out@ + (row_ascii(row.skip(0)) + rows_ascii(
                ps.skip((y + 1) as int * width as int),
                width as nat,
                (height - y - 1) as nat,
            )) =~= out@ + rows_ascii(
                ps.skip(y as int * width as int),
                width as nat,
                (height - y) as nat,
            ));
        }
        let mut x: u32 = 0;
        while x < width
            invariant
                x <= width,
                out@ + (row_ascii(row.skip(x as int)) + rows_ascii(
                    ps.skip((y + 1) as int * width as int),
                    width as nat,
                    (height - y - 1) as nat,
                )) == full,
            decreases width - x,
        {
            proof {
                assert(y as nat * width as nat + x < ps.len() && y as int * width as int + x
                    <= u64::MAX) by (nonlinear_arith)
                    requires
                        x < width <= u32::MAX,
                        y < height <= u32::MAX,
                        ps.len() == width as nat * height as nat,
                ;
            }
            let idx64: u64 = y as u64 * width as u64 + x as u64;
            let _len: usize = pixels.len();
            let idx: usize = idx64 as usize;
            let p: Rgb = pixels[idx];
            proof {
                assert(row.skip(x as int)[0] == ps[idx as int]);
            }
            let ghost mid = out@;
            p.write_ascii(out);
            out.push(32);
            proof {
                assert(row.skip(x as int).skip(1) =~= row.skip(x as int + 1));
                assert(row_ascii(row.skip(x as int)) == rgb_ascii(p) + seq![32u8] + row_ascii(
                    row.skip(x as int + 1),
                ));
                assert(out@ =~= mid + (rgb_ascii(p) + seq![32u8]));
                assert(out@ + (row_ascii(row.skip(x as int + 1)) + rows_ascii(
                    ps.skip((y + 1) as int * width as int),
                    width as nat,
                    (height - y - 1) as nat,
                )) =~= mid + (row_ascii(row.skip(x as int)) + rows_ascii(
                    ps.skip((y + 1) as int * width as int),
                    width as nat,
                    (height - y - 1) as nat,
                )));
            }
            x = x + 1;
        }
        let ghost mid = out@;
        out.push(10);
        proof {
            assert(row.skip(width as int).len() == 0);
            assert(row_ascii(row.skip(width as int)) == seq![10u8]);
            assert(out@ + rows_ascii(
                ps.skip((y + 1) as int * width as int),
                width as nat,
                (height - y - 1) as nat,
            ) =~= mid + (row_ascii(row.skip(width as int)) + rows_ascii(
                ps.skip((y + 1) as int * width as int),
                width as nat,
                (height - y - 1) as nat,
            )));
        }
        y = y + 1;
    }
    proof {
        assert(rows_ascii(ps.skip(y as int * width as int), width as nat, 0) == Seq::<
            u8,
        >::empty());
        assert(out@ =~= out@ + Seq::<u8>::empty());
    }
}

} // verus!
