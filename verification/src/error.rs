//! The closed set of ways in which decoding can fail.

use vstd::prelude::*;
use vstd::std_specs::convert::FromSpecImpl;

verus! {

/// Why a length or count field is not an unsigned decimal number.
#[derive(Debug, Clone, Copy, PartialEq, Eq)]
pub enum NumericError {
    /// The field holds no byte at all.
    Empty,
    /// The field holds a byte that is not an ASCII digit.
    InvalidDigit,
    /// The field is made of digits, but its value does not fit in 64 bits.
    Overflow,
}

/// A decoding failure.
#[derive(Debug, Clone, Copy, PartialEq, Eq)]
pub enum RError {
    /// The leading byte, carried here, is none of `+ - : $ *`.
    UnknownSymbol(u8),
    /// Decoding was attempted on a buffer of length zero.
    EmptyInput,
    /// No `\r\n` pair was found before the end of the buffer.
    NoCrlf,
    /// A declared length disagrees with the bytes that follow it.
    IncorrectFormat,
    /// A length or count field is not an unsigned decimal number.
    NumericFormat(NumericError),
}

impl NumericError {
    /// The text that describes this failure.
    pub open spec fn message(&self) -> Seq<char> {
        match self {
            NumericError::Empty => "cannot parse integer from empty string"@,
            NumericError::InvalidDigit => "invalid digit found in string"@,
            NumericError::Overflow => "number too large to fit in target type"@,
        }
    }

    /// Describes this failure in words.
    pub fn to_string(&self) -> (text: String)
        ensures
            text@ == self.message(),
    {
        match self {
            NumericError::Empty => "cannot parse integer from empty string".to_owned(),
            NumericError::InvalidDigit => "invalid digit found in string".to_owned(),
            NumericError::Overflow => "number too large to fit in target type".to_owned(),
        }
    }
}

impl From<NumericError> for RError {
    /// A field that is no number fails the frame it stands in.
    fn from(from: NumericError) -> (failure: RError) {
        RError::NumericFormat(from)
    }
}

impl FromSpecImpl<NumericError> for RError {
    open spec fn obeys_from_spec() -> bool {
        true
    }

    open spec fn from_spec(from: NumericError) -> RError {
        RError::NumericFormat(from)
    }
}

impl RError {
    /// The text that describes this failure. A numeric failure is described
    /// by its cause.
    pub open spec fn message(&self) -> Seq<char> {
        match self {
            RError::UnknownSymbol(_) => "Unknown symbol"@,
            RError::EmptyInput => "Empty input"@,
            RError::NoCrlf => "No CLRF"@,
            RError::IncorrectFormat => "Incorrect format"@,
            RError::NumericFormat(kind) => kind.message(),
        }
    }

    /// Describes this failure in words.
    pub fn to_string(&self) -> (text: String)
        ensures
            text@ == self.message(),
    {
        match self {
            RError::UnknownSymbol(_) => "Unknown symbol".to_owned(),
            RError::EmptyInput => "Empty input".to_owned(),
            RError::NoCrlf => "No CLRF".to_owned(),
            RError::IncorrectFormat => "Incorrect format".to_owned(),
            RError::NumericFormat(kind) => kind.to_string(),
        }
    }
}

} // verus!
