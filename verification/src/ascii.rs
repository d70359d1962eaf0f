use vstd::prelude::*;
use vstd::string::StringExecFns;

use crate::error::ImageError;

verus! {

// ---------------------------------------------------------------------------
// Whitespace and tokens
//
// The plain PPM format separates numbers with runs of ASCII whitespace and
// attaches no meaning to the particular whitespace characters used.  A byte
// stream is therefore read as a sequence of tokens: maximal runs of
// non-whitespace bytes.
// ---------------------------------------------------------------------------

/// The ASCII whitespace bytes: tab, line feed, form feed, carriage return,
/// space.
pub open spec fn is_ws(b: u8) -> bool {
    b == 9 || b == 10 || b == 12 || b == 13 || b == 32
}

/// Length of the token (maximal run of non-whitespace bytes) starting at
/// position `i` of `s`; zero if `i` is out of range or on whitespace.
pub open spec fn tok_len(s: Seq<u8>, i: int) -> nat
    decreases s.len() - i,
{
    if i < 0 || i >= s.len() || is_ws(s[i]) {
        0
    } else {
        1 + tok_len(s, i + 1)
    }
}

/// The sequence of tokens of `s` from position `i` on.
pub open spec fn toks_at(s: Seq<u8>, i: int) -> Seq<Seq<u8>>
    decreases s.len() - i,
    when 0 <= i <= s.len()
    via toks_at_dec
{
    if i >= s.len() {
        Seq::empty()
    } else if is_ws(s[i]) {
        toks_at(s, i + 1)
    } else {
        seq![s.subrange(i, i + tok_len(s, i))] + toks_at(s, i + tok_len(s, i))
    }
}

#[via_fn]
proof fn toks_at_dec(s: Seq<u8>, i: int) {
    if 0 <= i < s.len() && !is_ws(s[i]) {
        lemma_tok_len_in_range(s, i);
        assert(tok_len(s, i) >= 1);
    }
}

/// A token never runs past the end of the byte sequence.
pub proof fn lemma_tok_len_in_range(s: Seq<u8>, i: int)
    requires
        0 <= i <= s.len(),
    ensures
        i + tok_len(s, i) <= s.len(),
    decreases s.len() - i,
{
    if i < s.len() && !is_ws(s[i]) {
        lemma_tok_len_in_range(s, i + 1);
    }
}

/// Tokenizing a suffix is the same whether the suffix is cut off first or
/// scanned in place.
pub proof fn lemma_tok_len_shift(s: Seq<u8>, i: int, j: int)
    requires
        0 <= i,
        0 <= j,
        i + j <= s.len(),
    ensures
        tok_len(s.skip(i), j) == tok_len(s, i + j),
    decreases s.len() - i - j,
{
    if i + j < s.len() && !is_ws(s[i + j]) {
        lemma_tok_len_shift(s, i, j + 1);
    }
}

/// The tokens of `s` from position `i` on are the tokens of the suffix of
/// `s` that starts at `i`.
pub proof fn lemma_toks_shift_from(s: Seq<u8>, i: int, j: int)
    requires
        0 <= i,
        0 <= j,
        i + j <= s.len(),
    ensures
        toks_at(s.skip(i), j) == toks_at(s, i + j),
    decreases s.len() - i - j,
{
    if i + j >= s.len() {
    } else if is_ws(s[i + j]) {
        lemma_toks_shift_from(s, i, j + 1);
    } else {
        lemma_tok_len_shift(s, i, j);
        let n = tok_len(s, i + j) as int;
        lemma_tok_len_in_range(s, i + j);
        assert(s.skip(i).subrange(j, j + n) =~= s.subrange(i + j, i + j + n));
        lemma_toks_shift_from(s, i, j + n);
    }
}

/// Specialization of [`lemma_toks_shift_from`] to the start of the
/// suffix.
pub proof fn lemma_toks_shift(s: Seq<u8>, i: int)
    requires
        0 <= i <= s.len(),
    ensures
        toks_at(s.skip(i), 0) == toks_at(s, i),
{
    lemma_toks_shift_from(s, i, 0);
}

/// Whitespace in front of a byte sequence adds no token.
pub proof fn lemma_toks_ws_prefix(u: Seq<u8>, v: Seq<u8>)
    requires
        forall|k: int| 0 <= k < u.len() ==> is_ws(u[k]),
    ensures
        toks_at(u + v, 0) == toks_at(v, 0),
    decreases u.len(),
{
    if u.len() == 0 {
        assert(u + v =~= v);
    } else {
        assert((u + v)[0] == u[0]);
        lemma_toks_shift(u + v, 1);
        assert((u + v).skip(1) =~= u.skip(1) + v);
        lemma_toks_ws_prefix(u.skip(1), v);
    }
}

/// A run of non-whitespace bytes closed off by whitespace or the end of
/// the sequence is one whole token.
pub proof fn lemma_tok_len_run(s: Seq<u8>, i: int, j: int)
    requires
        0 <= i <= j <= s.len(),
        forall|k: int| i <= k < j ==> !is_ws(s[k]),
        j == s.len() || is_ws(s[j]),
    ensures
        tok_len(s, i) == j - i,
    decreases j - i,
{
    if i < j {
        lemma_tok_len_run(s, i + 1, j);
    }
}

/// The first token of `whitespace, then a run of non-whitespace, then
/// anything opening with whitespace` is exactly that run.
pub proof fn lemma_toks_chunk(pre: Seq<u8>, t: Seq<u8>, rest: Seq<u8>)
    requires
        forall|k: int| 0 <= k < pre.len() ==> is_ws(pre[k]),
        t.len() >= 1,
        forall|k: int| 0 <= k < t.len() ==> !is_ws(t[k]),
        rest.len() == 0 || is_ws(rest[0]),
    ensures
        toks_at(pre + t + rest, 0) == seq![t] + toks_at(rest, 0),
{
    assert(pre + t + rest =~= pre + (t + rest));
    lemma_toks_ws_prefix(pre, t + rest);
    let s = t + rest;
    assert(forall|k: int| 0 <= k < t.len() ==> s[k] == t[k]);
    lemma_tok_len_run(s, 0, t.len() as int);
    assert(!is_ws(s[0]));
    assert(s.subrange(0, t.len() as int) =~= t);
    lemma_toks_shift(s, t.len() as int);
    assert(s.skip(t.len() as int) =~= rest);
}

// ---------------------------------------------------------------------------
// Decimal notation
//
// Numbers appear in the format, and in error messages, in plain decimal
// notation without a sign and without leading zeros.
// ---------------------------------------------------------------------------

/// `true` for the ASCII bytes `'0'` through `'9'`.
pub open spec fn is_digit(b: u8) -> bool {
    48 <= b <= 57
}

/// The decimal notation of `n` as a sequence of ASCII bytes.
pub open spec fn dec_bytes(n: nat) -> Seq<u8>
    decreases n,
{
    if n < 10 {
        seq![(48 + n) as u8]
    } else {
        dec_bytes(n / 10) + seq![(48 + n % 10) as u8]
    }
}

/// The decimal digit `d` as a character; `d` at ten or above is clamped to
/// `'9'` so that the function is total.
pub open spec fn digit_char(d: nat) -> char {
    if d == 0 {
        '0'
    } else if d == 1 {
        '1'
    } else if d == 2 {
        '2'
    } else if d == 3 {
        '3'
    } else if d == 4 {
        '4'
    } else if d == 5 {
        '5'
    } else if d == 6 {
        '6'
    } else if d == 7 {
        '7'
    } else if d == 8 {
        '8'
    } else {
        '9'
    }
}

/// The decimal notation of `n` as a sequence of characters.
pub open spec fn dec_chars(n: nat) -> Seq<char>
    decreases n,
{
    if n < 10 {
        seq![digit_char(n)]
    } else {
        dec_chars(n / 10) + seq![digit_char(n % 10)]
    }
}

/// A one-character string holding the decimal digit `d`.
pub fn digit_str(d: u8) -> (r: &'static str)
    requires
        d < 10,
    ensures
        r@ == seq![digit_char(d as nat)],
{
    proof {
        reveal_strlit("0");
        reveal_strlit("1");
        reveal_strlit("2");
        reveal_strlit("3");
        reveal_strlit("4");
        reveal_strlit("5");
        reveal_strlit("6");
        reveal_strlit("7");
        reveal_strlit("8");
        reveal_strlit("9");
    }
    match d {
        0 => "0",
        1 => "1",
        2 => "2",
        3 => "3",
        4 => "4",
        5 => "5",
        6 => "6",
        7 => "7",
        8 => "8",
        _ => "9",
    }
}

/// Append the decimal notation of `n` to the string `s`.
pub fn push_dec_chars(s: &mut String, n: u32)
    ensures
        final(s)@ == old(s)@ + dec_chars(n as nat),
    decreases n,
{
    if n >= 10 {
        push_dec_chars(s, n / 10);
        proof {
            assert(n as nat % 10 < 10) by (nonlinear_arith);
        }
        let d: &'static str = digit_str((n % 10) as u8);
        s.append(d);
        proof {
            assert(old(s)@ + dec_chars(n as nat) == (old(s)@ + dec_chars(n as nat / 10)) + seq![
                digit_char(n as nat % 10),
            ]);
        }
    } else {
        let d: &'static str = digit_str(n as u8);
        s.append(d);
    }
}

/// The numeric value of the digit byte `b`; non-digits count as zero.
pub open spec fn digit_val(b: u8) -> nat {
    if is_digit(b) {
        (b - 48) as nat
    } else {
        0
    }
}

/// The number that the digit bytes `t` denote in decimal.
pub open spec fn dec_val(t: Seq<u8>) -> nat
    decreases t.len(),
{
    if t.len() == 0 {
        0
    } else {
        dec_val(t.drop_last()) * 10 + digit_val(t.last())
    }
}

/// The decimal notation of a number is nonempty and all digits.
pub proof fn lemma_dec_bytes_digits(n: nat)
    ensures
        dec_bytes(n).len() >= 1,
        forall|k: int| 0 <= k < dec_bytes(n).len() ==> is_digit(dec_bytes(n)[k]),
    decreases n,
{
    if n >= 10 {
        lemma_dec_bytes_digits(n / 10);
    }
}

/// Reading the decimal notation of `n` back as a number gives `n`.
pub proof fn lemma_dec_val_dec_bytes(n: nat)
    ensures
        dec_val(dec_bytes(n)) == n,
    decreases n,
{
    if n < 10 {
        let t = dec_bytes(n);
        assert(t.drop_last() =~= Seq::<u8>::empty());
        assert(t.last() == (48 + n) as u8);
        assert(digit_val((48 + n) as u8) == n);
        assert(dec_val(t) == dec_val(t.drop_last()) * 10 + digit_val(t.last()));
    } else {
        lemma_dec_val_dec_bytes(n / 10);
        let t = dec_bytes(n);
        assert(t =~= dec_bytes(n / 10) + seq![(48 + n % 10) as u8]);
        assert(t.drop_last() =~= dec_bytes(n / 10));
        assert(t.last() == (48 + n % 10) as u8);
        assert(digit_val((48 + n % 10) as u8) == n % 10);
        assert(dec_val(t) == dec_val(t.drop_last()) * 10 + digit_val(t.last()));
        assert(dec_val(t) == (n / 10) * 10 + n % 10);
        assert((n / 10) * 10 + n % 10 == n) by (nonlinear_arith);
    }
}

/// Every prefix of a digit string denotes at most what the whole string
/// denotes.
pub proof fn lemma_dec_val_prefix(t: Seq<u8>, i: int)
    requires
        0 <= i <= t.len(),
    ensures
        dec_val(t.take(i)) <= dec_val(t),
    decreases t.len() - i,
{
    if i == t.len() {
        assert(t.take(i) =~= t);
    } else {
        assert(t.take(i + 1).drop_last() =~= t.take(i));
        assert(t.take(i + 1).last() == t[i]);
        lemma_dec_val_prefix(t, i + 1);
    }
}

/// What reading a bounded decimal number out of a token can come to.
pub enum NumParse {
    /// The token is a decimal number with this value, at most the bound.
    Num(nat),
    /// There is no token left to read.
    Missing,
    /// The token holds a byte that is not a decimal digit.
    NotDigit,
    /// The token is all digits but its value passes the bound.
    TooBig,
}

/// Read the token `t` from position `i` on as a decimal number, with digits
/// read so far amounting to `acc`.  The scan stops at the first byte that
/// is not a digit, or as soon as the value passes `bound`, whichever comes
/// first.
pub open spec fn parse_digits(t: Seq<u8>, i: int, acc: nat, bound: nat) -> NumParse
    decreases t.len() - i,
    when 0 <= i <= t.len()
{
    if i == t.len() {
        NumParse::Num(acc)
    } else if !is_digit(t[i]) {
        NumParse::NotDigit
    } else if acc * 10 + (t[i] - 48) > bound {
        NumParse::TooBig
    } else {
        parse_digits(t, i + 1, (acc * 10 + (t[i] - 48)) as nat, bound)
    }
}

/// Read the first of the tokens `ts` as a decimal number of at most
/// `bound`.
pub open spec fn num_head(ts: Seq<Seq<u8>>, bound: nat) -> NumParse {
    if ts.len() == 0 {
        NumParse::Missing
    } else {
        parse_digits(ts[0], 0, 0, bound)
    }
}

/// A scan that starts within the bound never yields a value past it.
pub proof fn lemma_parse_digits_bound(t: Seq<u8>, i: int, acc: nat, bound: nat)
    requires
        0 <= i <= t.len(),
        acc <= bound,
    ensures
        parse_digits(t, i, acc, bound) matches NumParse::Num(v) ==> v <= bound,
    decreases t.len() - i,
{
    if i < t.len() && is_digit(t[i]) && acc * 10 + (t[i] - 48) <= bound {
        lemma_parse_digits_bound(t, i + 1, (acc * 10 + (t[i] - 48)) as nat, bound);
    }
}

/// A number read out of a token stream is at most its bound.
pub proof fn lemma_num_head_bound(ts: Seq<Seq<u8>>, bound: nat)
    ensures
        num_head(ts, bound) matches NumParse::Num(v) ==> v <= bound,
{
    if ts.len() > 0 {
        lemma_parse_digits_bound(ts[0], 0, 0, bound);
    }
}

/// Scanning a digit string whose value is within the bound yields exactly
/// that value.
pub proof fn lemma_parse_digits_value(t: Seq<u8>, i: int, bound: nat)
    requires
        0 <= i <= t.len(),
        forall|k: int| 0 <= k < t.len() ==> is_digit(t[k]),
        dec_val(t) <= bound,
    ensures
        parse_digits(t, i, dec_val(t.take(i)), bound) == NumParse::Num(dec_val(t)),
    decreases t.len() - i,
{
    if i == t.len() {
        assert(t.take(i) =~= t);
    } else {
        assert(t.take(i + 1).drop_last() =~= t.take(i));
        assert(t.take(i + 1).last() == t[i]);
        assert(dec_val(t.take(i + 1)) == dec_val(t.take(i)) * 10 + digit_val(t[i]));
        lemma_dec_val_prefix(t, i + 1);
        lemma_parse_digits_value(t, i + 1, bound);
    }
}

/// Scanning the decimal notation of `n` under a bound that admits `n`
/// yields `n`.
pub proof fn lemma_parse_dec_bytes(n: nat, bound: nat)
    requires
        n <= bound,
    ensures
        parse_digits(dec_bytes(n), 0, 0, bound) == NumParse::Num(n),
{
    lemma_dec_bytes_digits(n);
    lemma_dec_val_dec_bytes(n);
    let t = dec_bytes(n);
    assert(t.take(0) =~= Seq::<u8>::empty());
    lemma_parse_digits_value(t, 0, bound);
}

/// Whether `b` is one of the ASCII whitespace bytes.
pub fn is_ws_byte(b: u8) -> (r: bool)
    ensures
        r == is_ws(b),
{
    b == 9 || b == 10 || b == 12 || b == 13 || b == 32
}

/// Find the next token of `s` at or after position `pos`: its start and
/// end, or `None` when only whitespace is left.
pub fn next_token(s: &[u8], pos: usize) -> (r: Option<(usize, usize)>)
    requires
        pos <= s@.len(),
    ensures
        match r {
            None => toks_at(s@, pos as int) == Seq::<Seq<u8>>::empty(),
            Some((a, b)) => {
                &&& pos <= a < b <= s@.len()
                &&& toks_at(s@, pos as int) == seq![s@.subrange(a as int, b as int)] + toks_at(
                    s@,
                    b as int,
                )
            },
        },
{
    let n: usize = s.len();
    let mut a: usize = pos;
    while a < n && is_ws_byte(s[a])
        invariant
            pos <= a <= n == s@.len(),
            toks_at(s@, pos as int) == toks_at(s@, a as int),
        decreases n - a,
    {
        a = a + 1;
    }
    if a == n {
        return None;
    }
    let mut b: usize = a;
    while b < n && !is_ws_byte(s[b])
        invariant
            a <= b <= n == s@.len(),
            a < n && !is_ws(s@[a as int]),
            tok_len(s@, a as int) == (b - a) + tok_len(s@, b as int),
        decreases n - b,
    {
        b = b + 1;
    }
    proof {
        assert(tok_len(s@, b as int) == 0);
        assert(b > a);
    }
    Some((a, b))
}

/// Read the bytes of `s` from `start` up to `end` — a whole token — as a
/// decimal number of at most `bound`; report a non-digit byte or a value
/// passing the bound as the error message Rust's integer parsing uses for
/// it.
pub fn parse_num(s: &[u8], start: usize, end: usize, bound: u32) -> (r: Result<u32, ImageError>)
    requires
        start <= end <= s@.len(),
    ensures
        match parse_digits(s@.subrange(start as int, end as int), 0, 0, bound as nat) {
            NumParse::Num(v) => r matches Ok(x) && x == v && v <= bound,
            NumParse::NotDigit => r matches Err(e) && e matches ImageError::ParseIntError(m)
                && m@ == "invalid digit found in string"@,
            NumParse::TooBig => r matches Err(e) && e matches ImageError::ParseIntError(m) && m@
                == "number too large to fit in target type"@,
            NumParse::Missing => false,
        },
{
    let ghost t: Seq<u8> = s@.subrange(start as int, end as int);
    let mut acc: u32 = 0;
    let mut j: usize = start;
    while j < end
        invariant
            start <= j <= end <= s@.len(),
            acc <= bound,
            t == s@.subrange(start as int, end as int),
            parse_digits(t, 0, 0, bound as nat) == parse_digits(
                t,
                j - start,
                acc as nat,
                bound as nat,
            ),
        decreases end - j,
    {
        let byte: u8 = s[j];
        proof {
            assert(t[j - start] == s@[j as int]);
        }
        if byte < 48 || byte > 57 {
            return Err(ImageError::ParseIntError("invalid digit found in string".to_owned()));
        }
        let next: u64 = acc as u64 * 10 + (byte - 48) as u64;
        if next > bound as u64 {
            return Err(
                ImageError::ParseIntError("number too large to fit in target type".to_owned()),
            );
        }
        acc = next as u32;
        j = j + 1;
    }
    Ok(acc)
}

/// Append the decimal notation of `n` to the byte vector `out`.
pub fn push_dec_bytes(out: &mut Vec<u8>, n: u32)
    ensures
        final(out)@ == old(out)@ + dec_bytes(n as nat),
    decreases n,
{
    if n >= 10 {
        push_dec_bytes(out, n / 10);
        out.push(48 + (n % 10) as u8);
        proof {
            assert(old(out)@ + dec_bytes(n as nat) =~= (old(out)@ + dec_bytes(n as nat / 10)).push(
                (48 + n as nat % 10) as u8,
            ));
        }
    } else {
        out.push(48 + n as u8);
        proof {
            assert(old(out)@ + dec_bytes(n as nat) =~= old(out)@.push((48 + n as nat) as u8));
        }
    }
}

} // verus!
