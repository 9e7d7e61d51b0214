//! The wire format, as mathematical functions on byte sequences.
//!
//! Every executable decoder in this crate is specified by one of the
//! functions below.

use crate::error::NumericError;
use crate::error::RError;
use crate::value::Content;
use vstd::prelude::*;

verus! {

/// Carriage return, the first byte of a line terminator.
pub const CR: u8 = 0x0d;

/// Line feed, the second byte of a line terminator.
pub const LF: u8 = 0x0a;

/// The sigil `+` of a simple string.
pub const PLUS: u8 = 0x2b;

/// The sigil `-` of an error; also the sign in the nil marker.
pub const MINUS: u8 = 0x2d;

/// The sigil `:` of an integer.
pub const COLON: u8 = 0x3a;

/// The sigil `$` of a bulk string.
pub const DOLLAR: u8 = 0x24;

/// The sigil `*` of an array.
pub const STAR: u8 = 0x2a;

/// The digit `0`.
pub const ZERO: u8 = 0x30;

/// The digit `1`.
pub const ONE: u8 = 0x31;

/// The digit `9`.
pub const NINE: u8 = 0x39;

/// Width of the nil marker `-1\r\n` that may follow the `$` sigil.
pub const NIL_VALUE_SIZE: usize = 4;

/// What decoding one frame gives: its content and the bytes after it.
pub type Decoded = Result<(Content, Seq<u8>), RError>;

/// What decoding a run of frames gives: their contents, in order, and the
/// bytes after the last one.
pub type DecodedItems = Result<(Seq<Content>, Seq<u8>), RError>;

/// `b` is one of the five bytes that open a frame.
pub open spec fn is_sigil(b: u8) -> bool {
    b == PLUS || b == MINUS || b == COLON || b == DOLLAR || b == STAR
}

/// A line terminator starts at index `i` of `s`, and lies wholly within it.
pub open spec fn crlf_at(s: Seq<u8>, i: int) -> bool {
    0 <= i && i + 1 < s.len() && s[i] == CR && s[i + 1] == LF
}

/// `s` holds a line terminator somewhere.
pub open spec fn has_crlf(s: Seq<u8>) -> bool {
    exists|i: int| crlf_at(s, i)
}

/// The leftmost line terminator of `s` starts at index `i`.
pub open spec fn is_first_crlf(s: Seq<u8>, i: int) -> bool {
    crlf_at(s, i) && forall|j: int| 0 <= j < i ==> !crlf_at(s, j)
}

/// Where the leftmost line terminator of `s` starts, if `s` has one.
pub open spec fn first_crlf(s: Seq<u8>) -> int {
    choose|i: int| is_first_crlf(s, i)
}

/// Splits `s` at its leftmost line terminator: the bytes before it, and
/// the bytes after it.
pub open spec fn split_line(s: Seq<u8>) -> Result<(Seq<u8>, Seq<u8>), RError> {
    if has_crlf(s) {
        Ok((s.subrange(0, first_crlf(s)), s.subrange(first_crlf(s) + 2, s.len() as int)))
    } else {
        Err(RError::NoCrlf)
    }
}

/// `b` is an ASCII decimal digit.
pub open spec fn is_digit(b: u8) -> bool {
    ZERO <= b <= NINE
}

/// Every byte of `s` is an ASCII decimal digit.
pub open spec fn all_digits(s: Seq<u8>) -> bool {
    forall|i: int| 0 <= i < s.len() ==> is_digit(#[trigger] s[i])
}

/// The number that the digits of `s` write in base ten.
pub open spec fn decimal_value(s: Seq<u8>) -> nat
    decreases s.len(),
{
    if s.len() == 0 {
        0
    } else {
        10 * decimal_value(s.drop_last()) + (s.last() - ZERO) as nat
    }
}

/// Reads a length or count field: one or more digits whose value fits in
/// 64 bits. No sign and no blank is accepted.
pub open spec fn parse_decimal(s: Seq<u8>) -> Result<u64, NumericError> {
    if s.len() == 0 {
        Err(NumericError::Empty)
    } else if !all_digits(s) {
        Err(NumericError::InvalidDigit)
    } else if decimal_value(s) > u64::MAX {
        Err(NumericError::Overflow)
    } else {
        Ok(decimal_value(s) as u64)
    }
}

/// `s` starts with the nil marker `-1\r\n`.
pub open spec fn is_nil_marker(s: Seq<u8>) -> bool {
    s.len() >= NIL_VALUE_SIZE && s[0] == MINUS && s[1] == ONE && s[2] == CR && s[3] == LF
}

/// Decodes what follows a `+` sigil: one line.
pub open spec fn decode_simple_string(s: Seq<u8>) -> Decoded {
    match split_line(s) {
        Err(e) => Err(e),
        Ok((line, rest)) => Ok((Content::String(line), rest)),
    }
}

/// Decodes what follows a `-` sigil: one line.
pub open spec fn decode_error(s: Seq<u8>) -> Decoded {
    match split_line(s) {
        Err(e) => Err(e),
        Ok((line, rest)) => Ok((Content::Error(line), rest)),
    }
}

/// Decodes what follows a `:` sigil: one line, whose digits are kept as
/// they are.
pub open spec fn decode_integer(s: Seq<u8>) -> Decoded {
    match split_line(s) {
        Err(e) => Err(e),
        Ok((line, rest)) => Ok((Content::Integer(line), rest)),
    }
}

/// Decodes what follows a `$` sigil: the nil marker, or a length line and
/// a payload of that many bytes, closed by a line terminator.
pub open spec fn decode_bulk_string(s: Seq<u8>) -> Decoded {
    if is_nil_marker(s) {
        Ok((Content::Nil, s.skip(NIL_VALUE_SIZE as int)))
    } else {
        match split_line(s) {
            Err(e) => Err(e),
            Ok((line, rest)) => match parse_decimal(line) {
                Err(kind) => Err(RError::NumericFormat(kind)),
                Ok(size) => if crlf_at(rest, size as int) {
                    Ok((Content::BulkString(rest.subrange(0, size as int)), rest.skip(size + 2)))
                } else {
                    Err(RError::IncorrectFormat)
                },
            },
        }
    }
}

/// Decodes one frame from the front of `s`: the leading byte says which
/// kind of frame follows it.
pub open spec fn decode(s: Seq<u8>) -> Decoded
    decreases s.len(), 0nat,
{
    if s.len() == 0 {
        Err(RError::EmptyInput)
    } else if s[0] == PLUS {
        decode_simple_string(s.skip(1))
    } else if s[0] == COLON {
        decode_integer(s.skip(1))
    } else if s[0] == DOLLAR {
        decode_bulk_string(s.skip(1))
    } else if s[0] == STAR {
        decode_array(s.skip(1))
    } else if s[0] == MINUS {
        decode_error(s.skip(1))
    } else {
        Err(RError::UnknownSymbol(s[0]))
    }
}

/// Decodes what follows a `*` sigil: a count line, then that many frames.
pub open spec fn decode_array(s: Seq<u8>) -> Decoded
    decreases s.len(), 0nat,
    via decode_array_decreases
{
    match split_line(s) {
        Err(e) => Err(e),
        Ok((line, rest)) => match parse_decimal(line) {
            Err(kind) => Err(RError::NumericFormat(kind)),
            Ok(count) => match decode_items(rest, count as nat) {
                Err(e) => Err(e),
                Ok((items, left)) => Ok((Content::Array(items), left)),
            },
        },
    }
}

/// Decodes `count` frames in a row from the front of `s`. The first
/// failure is the failure of the whole run.
///
/// The length test only serves the termination argument. It never fails:
/// what is left after a frame is a suffix of what was there before it
/// (`lemma_decode_items_remainder`).
pub open spec fn decode_items(s: Seq<u8>, count: nat) -> DecodedItems
    decreases s.len(), count + 1,
{
    if count == 0 {
        Ok((Seq::empty(), s))
    } else {
        match decode_items(s, (count - 1) as nat) {
            Err(e) => Err(e),
            Ok((items, left)) => if left.len() <= s.len() {
                match decode(left) {
                    Err(e) => Err(e),
                    Ok((item, rest)) => Ok((items.push(item), rest)),
                }
            } else {
                Err(RError::IncorrectFormat)
            },
        }
    }
}

/// The frames of an array stand behind its count line, so they are
/// decoded from fewer bytes than the array.
#[via_fn]
proof fn decode_array_decreases(s: Seq<u8>) {
    if has_crlf(s) {
        lemma_first_crlf(s);
    }
}

/// A sequence with a line terminator has a leftmost one, and `first_crlf`
/// is where it starts.
pub proof fn lemma_first_crlf(s: Seq<u8>)
    requires
        has_crlf(s),
    ensures
        is_first_crlf(s, first_crlf(s)),
{
    let i = choose|i: int| crlf_at(s, i);
    lemma_leftmost_crlf_exists(s, i);
}

/// There is only one leftmost line terminator.
pub proof fn lemma_first_crlf_unique(s: Seq<u8>, i: int)
    requires
        is_first_crlf(s, i),
    ensures
        has_crlf(s),
        first_crlf(s) == i,
{
    let k = first_crlf(s);
    assert(is_first_crlf(s, k));
    if k < i {
        assert(!crlf_at(s, k));
    } else if i < k {
        assert(!crlf_at(s, i));
    }
}

/// Reading more digits never gives a smaller number.
pub proof fn lemma_decimal_value_prefix(s: Seq<u8>, i: int)
    requires
        all_digits(s),
        0 <= i <= s.len(),
    ensures
        decimal_value(s.subrange(0, i)) <= decimal_value(s),
    decreases s.len(),
{
    if i == s.len() {
        assert(s.subrange(0, i) == s);
    } else {
        assert(s.drop_last().subrange(0, i) == s.subrange(0, i));
        lemma_decimal_value_prefix(s.drop_last(), i);
    }
}

/// Among the line terminators at or before index `i`, one is leftmost.
proof fn lemma_leftmost_crlf_exists(s: Seq<u8>, i: int)
    requires
        crlf_at(s, i),
    ensures
        exists|k: int| is_first_crlf(s, k),
    decreases i,
{
    if exists|j: int| 0 <= j < i && crlf_at(s, j) {
        let j = choose|j: int| 0 <= j < i && crlf_at(s, j);
        lemma_leftmost_crlf_exists(s, j);
    } else {
        assert(is_first_crlf(s, i));
    }
}

} // verus!
