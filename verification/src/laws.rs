//! What holds of the wire format for every input.

use crate::encoding::{array_form, bulk_string_form, line_form, nil_form};
use crate::encoding::{crlf, encodable, encode, join, nil_marker};
use crate::encoding::{is_bulk_string_frame, is_frame, is_numeral};
use crate::encoding::{lemma_encode_is_frame, lemma_frame_is_encodable};
use crate::error::NumericError;
use crate::error::RError;
use crate::grammar::{all_digits, is_digit, parse_decimal};
use crate::grammar::{crlf_at, first_crlf, has_crlf, is_first_crlf, split_line};
use crate::grammar::{decode, decode_array, decode_bulk_string, decode_items};
use crate::grammar::{is_nil_marker, is_sigil};
use crate::grammar::{lemma_first_crlf, lemma_first_crlf_unique};
use crate::grammar::{CR, DOLLAR, LF, MINUS, ONE, STAR};
use crate::value::Content;
use vstd::prelude::*;

verus! {

/// A line and what follows it are cut out of the input: the line is a
/// prefix, the remainder a suffix, and only the terminator lies between.
pub proof fn lemma_split_line_parts(s: Seq<u8>)
    ensures
        split_line(s) matches Ok((line, rest)) ==> {
            &&& is_first_crlf(s, line.len() as int)
            &&& line.is_prefix_of(s)
            &&& rest.is_suffix_of(s)
            &&& line.len() + 2 + rest.len() == s.len()
        },
        split_line(s) matches Err(e) ==> e == RError::NoCrlf && !has_crlf(s),
{
    if has_crlf(s) {
        lemma_first_crlf(s);
    }
}

/// The line that is split off holds no terminator.
pub proof fn lemma_split_line_holds_no_crlf(s: Seq<u8>)
    ensures
        split_line(s) matches Ok((line, _)) ==> !has_crlf(line),
{
    if has_crlf(s) {
        lemma_first_crlf(s);
        let line = s.subrange(0, first_crlf(s));
        assert forall|j: int| !crlf_at(line, j) by {
            if crlf_at(line, j) {
                assert(crlf_at(s, j));
            }
        }
    }
}

/// A line without a terminator inside it, closed by a terminator, is
/// split off exactly: the line comes back, and so does what follows.
pub proof fn lemma_split_line_joined(line: Seq<u8>, after: Seq<u8>)
    requires
        !has_crlf(line),
    ensures
        split_line(line + crlf() + after) == Ok::<_, RError>((line, after)),
{
    let s = line + crlf() + after;
    let i = line.len() as int;
    assert(is_first_crlf(s, i)) by {
        assert forall|j: int| 0 <= j < i implies !crlf_at(s, j) by {
            if j + 1 < i {
                assert(!crlf_at(line, j));
            }
        }
    }
    lemma_first_crlf_unique(s, i);
    assert(s.subrange(0, i) == line);
    assert(s.subrange(i + 2, s.len() as int) == after);
}

/// Bytes added behind a line terminator do not move it: the line stays
/// the same and the remainder grows by what was added.
pub proof fn lemma_split_line_tail(s: Seq<u8>, tail: Seq<u8>)
    requires
        has_crlf(s),
    ensures
        split_line(s) matches Ok((line, rest)) && split_line(s + tail) == Ok::<_, RError>(
            (line, rest + tail),
        ),
{
    lemma_first_crlf(s);
    let i = first_crlf(s);
    let longer = s + tail;
    assert(is_first_crlf(longer, i)) by {
        assert forall|j: int| 0 <= j < i implies !crlf_at(longer, j) by {
            assert(!crlf_at(s, j));
        }
    }
    lemma_first_crlf_unique(longer, i);
    assert(longer.subrange(0, i) == s.subrange(0, i));
    assert(longer.subrange(i + 2, longer.len() as int) == s.subrange(i + 2, s.len() as int)
        + tail);
}

/// A run of digits holds no line terminator.
pub proof fn lemma_digits_hold_no_crlf(digits: Seq<u8>)
    requires
        all_digits(digits),
    ensures
        !has_crlf(digits),
{
    assert forall|i: int| !crlf_at(digits, i) by {
        if 0 <= i && i + 1 < digits.len() {
            assert(is_digit(digits[i]));
        }
    }
}

/// Behind a line without a terminator inside it, the nil marker is
/// found exactly where the line is `-1`.
pub proof fn lemma_nil_marker_line(line: Seq<u8>, after: Seq<u8>)
    requires
        !has_crlf(line),
    ensures
        is_nil_marker(line + crlf() + after) <==> line == seq![MINUS, ONE],
{
    let body = line + crlf() + after;
    if is_nil_marker(body) {
        if line.len() >= 4 {
            assert(crlf_at(line, 2));
        }
        assert(line == seq![MINUS, ONE]);
    }
}

/// An empty buffer fails with `EmptyInput`.
pub proof fn lemma_empty_input()
    ensures
        decode(Seq::empty()) == Err::<(Content, Seq<u8>), _>(RError::EmptyInput),
{
}

/// A buffer whose first byte opens no frame fails with `UnknownSymbol`,
/// which carries that byte.
pub proof fn lemma_unknown_symbol(s: Seq<u8>)
    requires
        s.len() > 0,
        !is_sigil(s[0]),
    ensures
        decode(s) == Err::<(Content, Seq<u8>), _>(RError::UnknownSymbol(s[0])),
{
}

/// A decoded frame takes at least three bytes from the front of the
/// input, and the remainder is the input without them.
pub proof fn lemma_decode_remainder(s: Seq<u8>)
    ensures
        decode(s) matches Ok((_, rest)) ==> rest.is_suffix_of(s) && rest.len() + 3 <= s.len(),
    decreases s.len(), 0nat,
{
    if s.len() > 0 {
        let body = s.skip(1);
        lemma_split_line_parts(body);
        if s[0] == STAR {
            lemma_decode_array_remainder(body);
        }
    }
}

/// A decoded array body takes at least its count line from the front of
/// the input, and the remainder is the input without what it took.
pub proof fn lemma_decode_array_remainder(s: Seq<u8>)
    ensures
        decode_array(s) matches Ok((_, rest)) ==> rest.is_suffix_of(s) && rest.len() + 3 <= s.len(),
    decreases s.len(), 0nat,
{
    lemma_split_line_parts(s);
    if let Ok((line, after)) = split_line(s) {
        if let Ok(count) = parse_decimal(line) {
            lemma_decode_items_remainder(after, count as nat);
        }
    }
}

/// A decoded run holds as many items as were asked for, each of which
/// took at least three bytes, and the remainder is the input without them.
pub proof fn lemma_decode_items_remainder(s: Seq<u8>, count: nat)
    ensures
        decode_items(s, count) matches Ok((items, rest)) ==> {
            &&& items.len() == count
            &&& rest.is_suffix_of(s)
            &&& rest.len() + 3 * count <= s.len()
        },
    decreases s.len(), count + 1,
{
    if count > 0 {
        lemma_decode_items_remainder(s, (count - 1) as nat);
        if let Ok((_, left)) = decode_items(s, (count - 1) as nat) {
            lemma_decode_remainder(left);
        }
    }
}

/// Once a run has failed, asking for more items gives the same failure.
pub proof fn lemma_decode_items_failure_stays(s: Seq<u8>, shorter: nat, longer: nat)
    requires
        shorter <= longer,
        decode_items(s, shorter) is Err,
    ensures
        decode_items(s, longer) == decode_items(s, shorter),
    decreases longer,
{
    if shorter < longer {
        lemma_decode_items_failure_stays(s, shorter, (longer - 1) as nat);
    }
}

/// What follows a frame has no part in decoding it: with more bytes
/// behind it, the frame decodes to the same content and the remainder
/// grows by those bytes.
pub proof fn lemma_decode_tail(s: Seq<u8>, tail: Seq<u8>)
    requires
        decode(s) is Ok,
    ensures
        decode(s) matches Ok((content, rest)) && decode(s + tail) == Ok::<_, RError>(
            (content, rest + tail),
        ),
    decreases s.len(), 0nat,
{
    let body = s.skip(1);
    assert((s + tail).skip(1) == body + tail);
    if s[0] == DOLLAR {
        lemma_decode_bulk_string_tail(body, tail);
    } else if s[0] == STAR {
        lemma_decode_array_tail(body, tail);
    } else {
        lemma_split_line_tail(body, tail);
    }
}

/// What follows a bulk string or the nil marker has no part in decoding
/// it.
pub proof fn lemma_decode_bulk_string_tail(s: Seq<u8>, tail: Seq<u8>)
    requires
        decode_bulk_string(s) is Ok,
    ensures
        decode_bulk_string(s) matches Ok((content, rest)) && decode_bulk_string(s + tail) == Ok::<
            _,
            RError,
        >((content, rest + tail)),
{
    if is_nil_marker(s) {
        assert((s + tail).skip(4) == s.skip(4) + tail);
    } else {
        lemma_split_line_tail(s, tail);
        lemma_split_line_parts(s);
        let (line, rest) = split_line(s)->Ok_0;
        let size = parse_decimal(line)->Ok_0 as int;
        let more = rest + tail;
        assert(more.subrange(0, size) == rest.subrange(0, size));
        assert(more.skip(size + 2) == rest.skip(size + 2) + tail);
    }
}

/// What follows an array has no part in decoding it.
pub proof fn lemma_decode_array_tail(s: Seq<u8>, tail: Seq<u8>)
    requires
        decode_array(s) is Ok,
    ensures
        decode_array(s) matches Ok((content, rest)) && decode_array(s + tail) == Ok::<_, RError>(
            (content, rest + tail),
        ),
    decreases s.len(), 0nat,
{
    lemma_split_line_tail(s, tail);
    lemma_split_line_parts(s);
    let (line, after) = split_line(s)->Ok_0;
    let count = parse_decimal(line)->Ok_0 as nat;
    lemma_decode_items_tail(after, count, tail);
}

/// What follows a run of frames has no part in decoding it.
pub proof fn lemma_decode_items_tail(s: Seq<u8>, count: nat, tail: Seq<u8>)
    requires
        decode_items(s, count) is Ok,
    ensures
        decode_items(s, count) matches Ok((items, rest)) && decode_items(s + tail, count) == Ok::<
            _,
            RError,
        >((items, rest + tail)),
    decreases s.len(), count + 1,
{
    if count > 0 {
        let fewer = (count - 1) as nat;
        lemma_decode_items_tail(s, fewer, tail);
        lemma_decode_items_remainder(s, fewer);
        let (_, left) = decode_items(s, fewer)->Ok_0;
        lemma_decode_tail(left, tail);
        lemma_decode_remainder(left);
    }
}

/// `$<digits>\r\n<payload>\r\n`, where the digits write the length of
/// the payload, decodes to a bulk string of exactly the payload, whatever
/// bytes the payload holds; what follows is the remainder, which is empty
/// where nothing follows.
pub proof fn lemma_bulk_string_decodes(digits: Seq<u8>, payload: Seq<u8>, tail: Seq<u8>)
    requires
        is_numeral(digits, payload.len()),
    ensures
        decode(bulk_string_form(digits, payload) + tail) == Ok::<_, RError>(
            (Content::BulkString(payload), tail),
        ),
        tail.len() == 0 ==> decode(bulk_string_form(digits, payload)) == Ok::<_, RError>(
            (Content::BulkString(payload), Seq::<u8>::empty()),
        ),
{
    let whole = bulk_string_form(digits, payload);
    if tail.len() == 0 {
        assert(tail == Seq::<u8>::empty());
        assert(whole + tail == whole);
    }
    let s = whole + tail;
    let after = payload + crlf() + tail;
    let body = digits + crlf() + after;
    assert(s.skip(1) == body);
    lemma_digits_hold_no_crlf(digits);
    lemma_split_line_joined(digits, after);
    let size = payload.len() as int;
    assert(after.subrange(0, size) == payload);
    assert(after.skip(size + 2) == tail);
}

/// `$-1\r\n` decodes to nil; what follows is the remainder, which is
/// empty where nothing follows.
pub proof fn lemma_nil_decodes(tail: Seq<u8>)
    ensures
        decode(nil_form() + tail) == Ok::<_, RError>((Content::Nil, tail)),
        tail.len() == 0 ==> decode(nil_form()) == Ok::<_, RError>(
            (Content::Nil, Seq::<u8>::empty()),
        ),
{
    let whole = nil_form();
    if tail.len() == 0 {
        assert(tail == Seq::<u8>::empty());
        assert(whole + tail == whole);
    }
    let s = whole + tail;
    let body = nil_marker() + tail;
    assert(s.skip(1) == body);
    assert(body.skip(4) == tail);
}

/// A length or count line that is no unsigned decimal number fails the
/// frame with `NumericFormat`, which carries the cause. The line `-1`
/// behind `$` is the nil marker and no length: it is left out.
pub proof fn lemma_bad_length_fails(sigil: u8, line: Seq<u8>, after: Seq<u8>)
    requires
        sigil == DOLLAR || sigil == STAR,
        !has_crlf(line),
        parse_decimal(line) is Err,
        !(sigil == DOLLAR && line == seq![MINUS, ONE]),
    ensures
        decode(line_form(sigil, line) + after) == Err::<(Content, Seq<u8>), _>(
            RError::NumericFormat(parse_decimal(line)->Err_0),
        ),
{
    let s = line_form(sigil, line) + after;
    assert(s.skip(1) == line + crlf() + after);
    lemma_split_line_joined(line, after);
    lemma_nil_marker_line(line, after);
}

/// A length or count line that holds a byte other than a digit fails the
/// frame with `NumericFormat`, and the cause is an invalid digit. The
/// line `-1` behind `$` is the nil marker and no length: it is left out.
pub proof fn lemma_non_digit_fails(sigil: u8, line: Seq<u8>, after: Seq<u8>, i: int)
    requires
        sigil == DOLLAR || sigil == STAR,
        !has_crlf(line),
        0 <= i < line.len(),
        !is_digit(line[i]),
        !(sigil == DOLLAR && line == seq![MINUS, ONE]),
    ensures
        decode(line_form(sigil, line) + after) == Err::<(Content, Seq<u8>), _>(
            RError::NumericFormat(NumericError::InvalidDigit),
        ),
{
    lemma_bad_length_fails(sigil, line, after);
}

/// A bulk string fails with `IncorrectFormat` where fewer bytes follow
/// the length line than the declared length and a terminator take, or
/// where the two bytes behind the payload are not `\r\n`.
pub proof fn lemma_bad_payload_fails(digits: Seq<u8>, after: Seq<u8>)
    requires
        parse_decimal(digits) is Ok,
        ({
            let size = parse_decimal(digits)->Ok_0 as int;
            after.len() < size + 2 || after[size] != CR || after[size + 1] != LF
        }),
    ensures
        decode(line_form(DOLLAR, digits) + after) == Err::<(Content, Seq<u8>), _>(
            RError::IncorrectFormat,
        ),
{
    let s = line_form(DOLLAR, digits) + after;
    assert(s.skip(1) == digits + crlf() + after);
    lemma_digits_hold_no_crlf(digits);
    lemma_split_line_joined(digits, after);
    lemma_nil_marker_line(digits, after);
}

/// Frames that each decode on their own decode in a row, in the order in
/// which they stand, whatever their kinds and however deep they nest.
pub proof fn lemma_frames_decode(frames: Seq<Seq<u8>>, contents: Seq<Content>, tail: Seq<u8>)
    requires
        contents.len() == frames.len(),
        forall|i: int|
            0 <= i < frames.len() ==> decode(#[trigger] frames[i]) == Ok::<_, RError>(
                (contents[i], Seq::<u8>::empty()),
            ),
    ensures
        decode_items(join(frames) + tail, frames.len()) == Ok::<_, RError>((contents, tail)),
    decreases frames.len(),
{
    let s = join(frames) + tail;
    if frames.len() == 0 {
        assert(contents == Seq::<Content>::empty());
    } else {
        let fewer = frames.drop_last();
        let left = frames.last() + tail;
        assert(s == join(fewer) + left);
        lemma_frames_decode(fewer, contents.drop_last(), left);
        lemma_decode_tail(frames.last(), tail);
        assert(contents.drop_last().push(contents.last()) == contents);
    }
}

/// `*<digits>\r\n`, where the digits write a count, followed by that many
/// frames that each decode on their own, decodes to the array of their
/// contents, in the order in which they stand; what follows is the
/// remainder, which is empty where nothing follows.
pub proof fn lemma_array_decodes(
    digits: Seq<u8>,
    frames: Seq<Seq<u8>>,
    contents: Seq<Content>,
    tail: Seq<u8>,
)
    requires
        is_numeral(digits, frames.len()),
        contents.len() == frames.len(),
        forall|i: int|
            0 <= i < frames.len() ==> decode(#[trigger] frames[i]) == Ok::<_, RError>(
                (contents[i], Seq::<u8>::empty()),
            ),
    ensures
        decode(array_form(digits, frames) + tail) == Ok::<_, RError>(
            (Content::Array(contents), tail),
        ),
        tail.len() == 0 ==> decode(array_form(digits, frames)) == Ok::<_, RError>(
            (Content::Array(contents), Seq::<u8>::empty()),
        ),
{
    let whole = array_form(digits, frames);
    if tail.len() == 0 {
        assert(tail == Seq::<u8>::empty());
        assert(whole + tail == whole);
    }
    let s = whole + tail;
    let after = join(frames) + tail;
    assert(s.skip(1) == digits + crlf() + after);
    lemma_digits_hold_no_crlf(digits);
    lemma_split_line_joined(digits, after);
    lemma_frames_decode(frames, contents, tail);
}

/// Every wire form of a content decodes to that content, and what
/// follows the wire form is the remainder.
pub proof fn lemma_frame_decodes(bytes: Seq<u8>, content: Content, tail: Seq<u8>)
    requires
        is_frame(bytes, content),
    ensures
        decode(bytes + tail) == Ok::<_, RError>((content, tail)),
    decreases content,
{
    match content {
        Content::String(text) => {
            assert((bytes + tail).skip(1) == text + crlf() + tail);
            lemma_split_line_joined(text, tail);
        },
        Content::Error(text) => {
            assert((bytes + tail).skip(1) == text + crlf() + tail);
            lemma_split_line_joined(text, tail);
        },
        Content::Integer(text) => {
            assert((bytes + tail).skip(1) == text + crlf() + tail);
            lemma_split_line_joined(text, tail);
        },
        Content::BulkString(payload) => {
            let digits = choose|digits: Seq<u8>|
                is_numeral(digits, payload.len()) && bytes == #[trigger] bulk_string_form(
                    digits,
                    payload,
                );
            lemma_bulk_string_decodes(digits, payload, tail);
        },
        Content::Nil => {
            lemma_nil_decodes(tail);
        },
        Content::Array(items) => {
            let (digits, frames) = choose|digits: Seq<u8>, frames: Seq<Seq<u8>>|
                {
                    &&& is_numeral(digits, items.len())
                    &&& frames.len() == items.len()
                    &&& forall|i: int|
                        0 <= i < items.len() ==> is_frame(#[trigger] frames[i], items[i])
                    &&& bytes == #[trigger] array_form(digits, frames)
                };
            assert forall|i: int| 0 <= i < frames.len() implies decode(#[trigger] frames[i])
                == Ok::<_, RError>((items[i], Seq::<u8>::empty())) by {
                lemma_frame_decodes(frames[i], items[i], Seq::empty());
                assert(frames[i] + Seq::<u8>::empty() == frames[i]);
            }
            lemma_array_decodes(digits, frames, items, tail);
        },
    }
}

/// Decoding undoes encoding: the canonical wire form of a content decodes
/// to that content, and what follows the wire form is the remainder.
pub proof fn lemma_decode_encode(content: Content, tail: Seq<u8>)
    requires
        encodable(content),
    ensures
        decode(encode(content) + tail) == Ok::<_, RError>((content, tail)),
{
    lemma_encode_is_frame(content);
    lemma_frame_decodes(encode(content), content, tail);
}

/// The bytes that each of the first `count` frames of `s` takes, in order.
pub open spec fn item_frames(s: Seq<u8>, count: nat) -> Seq<Seq<u8>>
    decreases count,
{
    if count == 0 {
        Seq::empty()
    } else {
        let fewer = item_frames(s, (count - 1) as nat);
        match decode_items(s, (count - 1) as nat) {
            Err(_) => fewer,
            Ok((_, left)) => match decode(left) {
                Err(_) => fewer,
                Ok((_, rest)) => fewer.push(left.take(left.len() - rest.len())),
            },
        }
    }
}

/// What the decoder takes from the front of its input is a wire form of
/// the content that it gives.
pub proof fn lemma_decoded_is_frame(s: Seq<u8>)
    ensures
        decode(s) matches Ok((content, rest)) ==> is_frame(
            s.take(s.len() - rest.len()),
            content,
        ),
    decreases s.len(), 0nat,
{
    if let Ok((content, rest)) = decode(s) {
        let body = s.skip(1);
        let taken = s.take(s.len() - rest.len());
        lemma_split_line_parts(body);
        lemma_split_line_holds_no_crlf(body);
        lemma_decode_remainder(s);
        if s[0] == DOLLAR {
            if is_nil_marker(body) {
                assert(taken == nil_form());
            } else {
                let (line, after) = split_line(body)->Ok_0;
                let payload = after.subrange(0, parse_decimal(line)->Ok_0 as int);
                assert(taken == bulk_string_form(line, payload));
                assert(is_bulk_string_frame(taken, payload));
            }
        } else if s[0] == STAR {
            let (line, after) = split_line(body)->Ok_0;
            let count = parse_decimal(line)->Ok_0 as nat;
            lemma_decoded_items_are_frames(after, count);
            lemma_decode_items_remainder(after, count);
            let frames = item_frames(after, count);
            assert(after.take(after.len() - rest.len()) == join(frames));
            assert(taken == array_form(line, frames));
        } else {
            let (line, after) = split_line(body)->Ok_0;
            assert(taken == line_form(s[0], line));
        }
    }
}

/// What the decoder takes from the front of its input for a run is, item
/// by item, a wire form of the content that it gives.
pub proof fn lemma_decoded_items_are_frames(s: Seq<u8>, count: nat)
    ensures
        decode_items(s, count) matches Ok((items, rest)) ==> {
            &&& item_frames(s, count).len() == count
            &&& forall|i: int|
                0 <= i < count ==> is_frame(#[trigger] item_frames(s, count)[i], items[i])
            &&& join(item_frames(s, count)) + rest == s
        },
    decreases s.len(), count + 1,
{
    if let Ok((items, rest)) = decode_items(s, count) {
        let frames = item_frames(s, count);
        if count == 0 {
            assert(join(frames) + rest == s);
        } else {
            let fewer = (count - 1) as nat;
            lemma_decoded_items_are_frames(s, fewer);
            lemma_decode_items_remainder(s, fewer);
            let (_, left) = decode_items(s, fewer)->Ok_0;
            lemma_decoded_is_frame(left);
            lemma_decode_remainder(left);
            let taken = left.take(left.len() - rest.len());
            assert(frames.drop_last() == item_frames(s, fewer));
            assert(taken + rest == left);
            assert(join(frames) + rest == join(item_frames(s, fewer)) + left);
        }
    }
}

/// Decoding succeeds exactly on the inputs that start with a wire form:
/// it gives the content of that wire form and the bytes behind it.
pub proof fn lemma_decodes_exactly_frames(s: Seq<u8>, content: Content, rest: Seq<u8>)
    ensures
        decode(s) == Ok::<_, RError>((content, rest)) <==> exists|bytes: Seq<u8>|
            #[trigger] is_frame(bytes, content) && s == bytes + rest,
{
    if decode(s) == Ok::<_, RError>((content, rest)) {
        lemma_decoded_is_frame(s);
        lemma_decode_remainder(s);
        let bytes = s.take(s.len() - rest.len());
        assert(is_frame(bytes, content) && s == bytes + rest);
    }
    if exists|bytes: Seq<u8>| #[trigger] is_frame(bytes, content) && s == bytes + rest {
        let bytes = choose|bytes: Seq<u8>| #[trigger] is_frame(bytes, content) && s == bytes + rest;
        lemma_frame_decodes(bytes, content, rest);
    }
}

/// What the decoder gives has a wire form: its lines hold no terminator,
/// and its lengths and counts fit in 64 bits.
pub proof fn lemma_decoded_is_encodable(s: Seq<u8>)
    ensures
        decode(s) matches Ok((content, _)) ==> encodable(content),
{
    if let Ok((content, rest)) = decode(s) {
        lemma_decoded_is_frame(s);
        lemma_frame_is_encodable(s.take(s.len() - rest.len()), content);
    }
}

} // verus!
