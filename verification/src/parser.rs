//! The executable decoder.

use crate::error::NumericError;
use crate::error::RError;
use crate::grammar::{all_digits, decimal_value, is_digit, parse_decimal};
use crate::grammar::{crlf_at, has_crlf, is_first_crlf, is_nil_marker, is_sigil, split_line};
use crate::grammar::{lemma_decimal_value_prefix, lemma_first_crlf_unique};
use crate::grammar::{decode, decode_array, decode_bulk_string, decode_items};
use crate::grammar::{decode_error, decode_integer, decode_simple_string};
use crate::grammar::{Decoded, NIL_VALUE_SIZE};
use crate::grammar::{COLON, CR, DOLLAR, LF, MINUS, NINE, ONE, PLUS, STAR, ZERO};
use crate::encoding::is_frame;
use crate::laws::{lemma_decode_items_failure_stays, lemma_decode_remainder};
use crate::laws::lemma_decoded_is_frame;
use crate::value::{contents_of, Content, RESP};
use vstd::prelude::*;

verus! {

/// What a scanned line stands for: the views of its two slices.
pub open spec fn line_view(r: Result<(&[u8], &[u8]), RError>) -> Result<
    (Seq<u8>, Seq<u8>),
    RError,
> {
    match r {
        Ok((line, rest)) => Ok((line@, rest@)),
        Err(e) => Err(e),
    }
}

/// What a decoding result stands for: the content of the value and the
/// view of the remainder.
pub open spec fn decoded_view(r: Result<(RESP, &[u8]), RError>) -> Decoded {
    match r {
        Ok((value, rest)) => Ok((value@, rest@)),
        Err(e) => Err(e),
    }
}

/// The decoder. It holds no state: every function takes the buffer to
/// decode and returns slices of it.
pub struct RedisProtocolParser;

impl RedisProtocolParser {
    /// Splits `input` at its leftmost `\r\n`: the line before it and the
    /// bytes after it. Fails with `NoCrlf` where `input` has no `\r\n`.
    /// No byte beyond the end of `input` is read.
    pub fn parse_everything_until_crlf<'a>(input: &'a [u8]) -> (r: Result<
        (&'a [u8], &'a [u8]),
        RError,
    >)
        ensures
            line_view(r) == split_line(input@),
            r matches Ok((line, rest)) ==> is_first_crlf(input@, line@.len() as int)
                && line@.len() + 2 + rest@.len() == input@.len(),
            r is Err <==> !has_crlf(input@),
    {
        let n: usize = input.len();
        if n < 2 {
            return Err(RError::NoCrlf);
        }
        let mut index: usize = 0;
        while index < n - 1
            invariant
                n == input@.len(),
                2 <= n,
                index <= n - 1,
                forall|j: int| 0 <= j < index ==> !crlf_at(input@, j),
            decreases n - index,
        {
            if input[index] == CR && input[index + 1] == LF {
                proof {
                    lemma_first_crlf_unique(input@, index as int);
                }
                return Ok((&input[0..index], &input[index + 2..n]));
            }
            index += 1;
        }
        Err(RError::NoCrlf)
    }

    /// Decodes what follows a `+` sigil: the line up to the leftmost
    /// `\r\n`, as a simple string.
    pub fn parse_simple_string<'a>(input: &'a [u8]) -> (r: Result<(RESP<'a>, &'a [u8]), RError>)
        ensures
            decoded_view(r) == decode_simple_string(input@),
    {
        match Self::parse_everything_until_crlf(input) {
            Ok((line, rest)) => Ok((RESP::String(line), rest)),
            Err(e) => Err(e),
        }
    }

    /// Decodes what follows a `-` sigil: the line up to the leftmost
    /// `\r\n`, as an error.
    pub fn parse_errors<'a>(input: &'a [u8]) -> (r: Result<(RESP<'a>, &'a [u8]), RError>)
        ensures
            decoded_view(r) == decode_error(input@),
    {
        match Self::parse_everything_until_crlf(input) {
            Ok((line, rest)) => Ok((RESP::Error(line), rest)),
            Err(e) => Err(e),
        }
    }

    /// Decodes what follows a `:` sigil: the line up to the leftmost
    /// `\r\n`, as an integer whose digits are not read.
    pub fn parse_integers<'a>(input: &'a [u8]) -> (r: Result<(RESP<'a>, &'a [u8]), RError>)
        ensures
            decoded_view(r) == decode_integer(input@),
    {
        match Self::parse_everything_until_crlf(input) {
            Ok((line, rest)) => Ok((RESP::Integer(line), rest)),
            Err(e) => Err(e),
        }
    }

    /// Decodes what follows a `$` sigil: the nil marker, or a length line
    /// and a payload of that many bytes closed by `\r\n`.
    ///
    /// Fails with `NoCrlf` where the length line has no end, with
    /// `NumericFormat` where it is no unsigned decimal number, and with
    /// `IncorrectFormat` where fewer bytes follow it than the payload and
    /// its terminator take, or the payload is not closed by `\r\n`.
    pub fn parse_bulk_strings<'a>(input: &'a [u8]) -> (r: Result<(RESP<'a>, &'a [u8]), RError>)
        ensures
            decoded_view(r) == decode_bulk_string(input@),
    {
        if Self::check_null_value(input) {
            return Ok((RESP::Nil, &input[NIL_VALUE_SIZE..input.len()]));
        }
        let (size_str, leftover) = match Self::parse_everything_until_crlf(input) {
            Ok(parts) => parts,
            Err(e) => {
                return Err(e);
            },
        };
        let declared: u64 = match Self::parse_length(size_str) {
            Ok(declared) => declared,
            Err(kind) => {
                return Err(RError::from(kind));
            },
        };
        if leftover.len() < 2 || declared > (leftover.len() - 2) as u64 {
            return Err(RError::IncorrectFormat);
        }
        let size: usize = declared as usize;
        if Self::check_crlf_at_index(leftover, size) {
            Ok((RESP::BulkString(&leftover[0..size]), &leftover[size + 2..leftover.len()]))
        } else {
            Err(RError::IncorrectFormat)
        }
    }

    /// Decodes what follows a `*` sigil: a count line, then that many
    /// frames one after the other, each from what the one before it left.
    ///
    /// Fails with `NoCrlf` where the count line has no end and with
    /// `NumericFormat` where it is no unsigned decimal number. The first
    /// frame that fails is the failure of the array, and nothing decoded
    /// before it is returned.
    pub fn parse_arrays<'a>(input: &'a [u8]) -> (r: Result<(RESP<'a>, &'a [u8]), RError>)
        ensures
            decoded_view(r) == decode_array(input@),
        decreases input@.len(), 0nat,
    {
        let (size_str, body) = match Self::parse_everything_until_crlf(input) {
            Ok(parts) => parts,
            Err(e) => {
                return Err(e);
            },
        };
        let count: u64 = match Self::parse_length(size_str) {
            Ok(count) => count,
            Err(kind) => {
                return Err(RError::from(kind));
            },
        };
        let mut left: &'a [u8] = body;
        let mut result: Vec<RESP<'a>> = Vec::new();
        let mut done: u64 = 0;
        assert(contents_of(result@) == Seq::<Content>::empty());
        while done < count
            invariant
                done <= count,
                split_line(input@) == Ok::<_, RError>((size_str@, body@)),
                parse_decimal(size_str@) == Ok::<_, NumericError>(count),
                body@.len() < input@.len(),
                left@.len() <= body@.len(),
                decode_items(body@, done as nat) == Ok::<_, RError>((contents_of(result@), left@)),
            decreases count - done,
        {
            match Self::parse_resp(left) {
                Ok((element, tmp)) => {
                    proof {
                        lemma_decode_remainder(left@);
                        assert(contents_of(result@.push(element)) == contents_of(result@).push(
                            element@,
                        ));
                    }
                    result.push(element);
                    left = tmp;
                },
                Err(e) => {
                    proof {
                        lemma_decode_items_failure_stays(body@, (done + 1) as nat, count as nat);
                    }
                    return Err(e);
                },
            }
            done += 1;
        }
        Ok((RESP::Array(result), left))
    }

    /// Decodes one frame from the front of `input`: the value, and the
    /// bytes of `input` after it. The leading byte says which kind of
    /// frame follows.
    ///
    /// What is taken from the front of `input` is a wire form of the value,
    /// and the remainder is the rest of `input`: it can be handed back in
    /// to decode the next frame of a stream. An array is decoded by
    /// recursion: the calls nest as deep as the arrays do.
    pub fn parse_resp<'a>(input: &'a [u8]) -> (r: Result<(RESP<'a>, &'a [u8]), RError>)
        ensures
            decoded_view(r) == decode(input@),
            input@.len() == 0 ==> r == Err::<(RESP<'a>, &'a [u8]), _>(RError::EmptyInput),
            input@.len() > 0 && !is_sigil(input@[0]) ==> r == Err::<(RESP<'a>, &'a [u8]), _>(
                RError::UnknownSymbol(input@[0]),
            ),
            r matches Ok((value, rest)) ==> {
                &&& rest@.is_suffix_of(input@)
                &&& rest@.len() + 3 <= input@.len()
                &&& is_frame(input@.take(input@.len() - rest@.len()), value@)
            },
        decreases input@.len(), 1nat,
    {
        proof {
            lemma_decode_remainder(input@);
            lemma_decoded_is_frame(input@);
        }
        if input.len() == 0 {
            return Err(RError::EmptyInput);
        }
        let first: u8 = input[0];
        let body: &'a [u8] = &input[1..input.len()];
        if first == PLUS {
            Self::parse_simple_string(body)
        } else if first == COLON {
            Self::parse_integers(body)
        } else if first == DOLLAR {
            Self::parse_bulk_strings(body)
        } else if first == STAR {
            Self::parse_arrays(body)
        } else if first == MINUS {
            Self::parse_errors(body)
        } else {
            Err(RError::UnknownSymbol(first))
        }
    }

    /// Reads a length or count field: one or more ASCII digits, whose
    /// value must fit in 64 bits. A sign, a blank or any other byte is an
    /// invalid digit, and an invalid digit is reported before an overflow.
    pub fn parse_length(line: &[u8]) -> (r: Result<u64, NumericError>)
        ensures
            r == parse_decimal(line@),
    {
        let n: usize = line.len();
        if n == 0 {
            return Err(NumericError::Empty);
        }
        let mut index: usize = 0;
        while index < n
            invariant
                n == line@.len(),
                index <= n,
                forall|j: int| 0 <= j < index ==> is_digit(#[trigger] line@[j]),
            decreases n - index,
        {
            if line[index] < ZERO || line[index] > NINE {
                assert(!is_digit(line@[index as int]));
                return Err(NumericError::InvalidDigit);
            }
            index += 1;
        }
        let mut value: u64 = 0;
        index = 0;
        while index < n
            invariant
                n == line@.len(),
                index <= n,
                all_digits(line@),
                value == decimal_value(line@.subrange(0, index as int)),
            decreases n - index,
        {
            let digit: u64 = (line[index] - ZERO) as u64;
            proof {
                let longer = line@.subrange(0, index + 1);
                assert(longer.drop_last() == line@.subrange(0, index as int));
                assert(decimal_value(longer) == 10 * value + digit);
                lemma_decimal_value_prefix(line@, index + 1);
            }
            let tens: u64 = match value.checked_mul(10) {
                Some(tens) => tens,
                None => {
                    return Err(NumericError::Overflow);
                },
            };
            value = match tens.checked_add(digit) {
                Some(sum) => sum,
                None => {
                    return Err(NumericError::Overflow);
                },
            };
            index += 1;
        }
        assert(line@.subrange(0, n as int) == line@);
        Ok(value)
    }

    /// Whether a `\r\n` pair starts at `index` and lies within `input`.
    pub fn check_crlf_at_index(input: &[u8], index: usize) -> (found: bool)
        ensures
            found == crlf_at(input@, index as int),
    {
        input.len() >= 2 && index <= input.len() - 2 && input[index] == CR
            && input[index + 1] == LF
    }

    /// Whether `input` starts with the nil marker `-1\r\n`.
    pub fn check_null_value(input: &[u8]) -> (found: bool)
        ensures
            found == is_nil_marker(input@),
    {
        input.len() >= NIL_VALUE_SIZE && input[0] == MINUS && input[1] == ONE && input[2] == CR
            && input[3] == LF
    }
}

} // verus!
