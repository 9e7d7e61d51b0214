//! Which bytes stand for a content on the wire.
//!
//! Nothing here is executable. `is_frame` says which byte strings are wire
//! forms of a content, and `encode` picks the canonical one among them, so
//! that the decoder can be held against both.

use crate::error::NumericError;
use crate::grammar::{all_digits, decimal_value, has_crlf, is_digit, parse_decimal};
use crate::grammar::{COLON, CR, DOLLAR, LF, MINUS, ONE, PLUS, STAR, ZERO};
use crate::value::Content;
use vstd::prelude::*;

verus! {

/// The line terminator `\r\n`.
pub open spec fn crlf() -> Seq<u8> {
    seq![CR, LF]
}

/// The nil marker `-1\r\n`.
pub open spec fn nil_marker() -> Seq<u8> {
    seq![MINUS, ONE, CR, LF]
}

/// The byte strings of `frames`, one after the other.
pub open spec fn join(frames: Seq<Seq<u8>>) -> Seq<u8>
    decreases frames.len(),
{
    if frames.len() == 0 {
        Seq::empty()
    } else {
        join(frames.drop_last()) + frames.last()
    }
}

/// A line frame: a sigil, a text and a line terminator.
pub open spec fn line_form(sigil: u8, text: Seq<u8>) -> Seq<u8> {
    seq![sigil] + text + crlf()
}

/// A bulk string frame: `$`, a length line, the payload and a line
/// terminator.
pub open spec fn bulk_string_form(digits: Seq<u8>, payload: Seq<u8>) -> Seq<u8> {
    seq![DOLLAR] + digits + crlf() + payload + crlf()
}

/// The nil frame `$-1\r\n`.
pub open spec fn nil_form() -> Seq<u8> {
    seq![DOLLAR] + nil_marker()
}

/// An array frame: `*`, a count line and the frames of the items.
pub open spec fn array_form(digits: Seq<u8>, frames: Seq<Seq<u8>>) -> Seq<u8> {
    seq![STAR] + digits + crlf() + join(frames)
}

/// `digits` write the number `n`, which fits in 64 bits. Leading zeros
/// are allowed.
pub open spec fn is_numeral(digits: Seq<u8>, n: nat) -> bool {
    n <= u64::MAX && parse_decimal(digits) == Ok::<_, NumericError>(n as u64)
}

/// `bytes` are a wire form of the bulk string that holds `payload`: the
/// length line may write the length of the payload in any way.
pub open spec fn is_bulk_string_frame(bytes: Seq<u8>, payload: Seq<u8>) -> bool {
    exists|digits: Seq<u8>|
        is_numeral(digits, payload.len()) && bytes == #[trigger] bulk_string_form(digits, payload)
}

/// `bytes` are a wire form of `content`. A length or a count may be
/// written with leading zeros, so a content can have several wire forms.
pub open spec fn is_frame(bytes: Seq<u8>, content: Content) -> bool
    decreases content,
{
    match content {
        Content::String(text) => !has_crlf(text) && bytes == line_form(PLUS, text),
        Content::Error(text) => !has_crlf(text) && bytes == line_form(MINUS, text),
        Content::Integer(text) => !has_crlf(text) && bytes == line_form(COLON, text),
        Content::BulkString(payload) => is_bulk_string_frame(bytes, payload),
        Content::Nil => bytes == nil_form(),
        Content::Array(items) => exists|digits: Seq<u8>, frames: Seq<Seq<u8>>|
            {
                &&& is_numeral(digits, items.len())
                &&& frames.len() == items.len()
                &&& forall|i: int|
                    0 <= i < items.len() ==> is_frame(#[trigger] frames[i], items[i])
                &&& bytes == #[trigger] array_form(digits, frames)
            },
    }
}

/// The digits of `n` in base ten, without leading zeros.
pub open spec fn decimal_digits(n: nat) -> Seq<u8>
    decreases n,
{
    if n < 10 {
        seq![(ZERO + n) as u8]
    } else {
        decimal_digits(n / 10).push((ZERO + n % 10) as u8)
    }
}

/// The canonical wire form of `content`: lengths and counts are written
/// without leading zeros.
pub open spec fn encode(content: Content) -> Seq<u8>
    decreases content,
{
    match content {
        Content::String(text) => line_form(PLUS, text),
        Content::Error(text) => line_form(MINUS, text),
        Content::Integer(text) => line_form(COLON, text),
        Content::BulkString(payload) => bulk_string_form(decimal_digits(payload.len()), payload),
        Content::Nil => nil_form(),
        Content::Array(items) => array_form(decimal_digits(items.len()), encode_items(items)),
    }
}

/// The canonical wire forms of `items`, in order.
pub open spec fn encode_items(items: Seq<Content>) -> Seq<Seq<u8>>
    decreases items,
{
    Seq::new(
        items.len(),
        |i: int|
            if 0 <= i < items.len() {
                encode(items[i])
            } else {
                Seq::empty()
            },
    )
}

/// `content` has a wire form: no line holds a line terminator, and every
/// length and count fits in 64 bits.
pub open spec fn encodable(content: Content) -> bool
    decreases content,
{
    match content {
        Content::String(text) => !has_crlf(text),
        Content::Error(text) => !has_crlf(text),
        Content::Integer(text) => !has_crlf(text),
        Content::BulkString(payload) => payload.len() <= u64::MAX,
        Content::Nil => true,
        Content::Array(items) => items.len() <= u64::MAX && forall|i: int|
            0 <= i < items.len() ==> encodable(#[trigger] items[i]),
    }
}

/// The digits of `n` are digits, there is at least one, and they write
/// `n`: a number that fits in 64 bits is read back from its digits.
pub proof fn lemma_decimal_digits(n: nat)
    ensures
        decimal_digits(n).len() > 0,
        all_digits(decimal_digits(n)),
        decimal_value(decimal_digits(n)) == n,
        n <= u64::MAX ==> is_numeral(decimal_digits(n), n),
    decreases n,
{
    if n < 10 {
        let digits = decimal_digits(n);
        assert(digits.drop_last() == Seq::<u8>::empty());
        assert(decimal_value(digits.drop_last()) == 0);
    } else {
        lemma_decimal_digits(n / 10);
        let shorter = decimal_digits(n / 10);
        let digits = decimal_digits(n);
        assert(digits.drop_last() == shorter);
        assert(is_digit(digits.last()));
    }
}

/// The canonical wire form of a content is one of its wire forms.
pub proof fn lemma_encode_is_frame(content: Content)
    requires
        encodable(content),
    ensures
        is_frame(encode(content), content),
    decreases content,
{
    match content {
        Content::BulkString(payload) => {
            lemma_decimal_digits(payload.len());
            let digits = decimal_digits(payload.len());
            assert(encode(content) == bulk_string_form(digits, payload));
        },
        Content::Array(items) => {
            lemma_decimal_digits(items.len());
            let digits = decimal_digits(items.len());
            let frames = encode_items(items);
            assert forall|i: int| 0 <= i < items.len() implies is_frame(
                #[trigger] frames[i],
                items[i],
            ) by {
                lemma_encode_is_frame(items[i]);
            }
            assert(encode(content) == array_form(digits, frames));
        },
        _ => {},
    }
}

/// A content that has a wire form is encodable.
pub proof fn lemma_frame_is_encodable(bytes: Seq<u8>, content: Content)
    requires
        is_frame(bytes, content),
    ensures
        encodable(content),
    decreases content,
{
    match content {
        Content::Array(items) => {
            let (digits, frames) = choose|digits: Seq<u8>, frames: Seq<Seq<u8>>|
                {
                    &&& is_numeral(digits, items.len())
                    &&& frames.len() == items.len()
                    &&& forall|i: int|
                        0 <= i < items.len() ==> is_frame(#[trigger] frames[i], items[i])
                    &&& bytes == #[trigger] array_form(digits, frames)
                };
            assert forall|i: int| 0 <= i < items.len() implies encodable(#[trigger] items[i]) by {
                lemma_frame_is_encodable(frames[i], items[i]);
            }
        },
        _ => {},
    }
}

} // verus!
