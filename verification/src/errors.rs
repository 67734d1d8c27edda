//! Error handling.

use vstd::prelude::*;
use vstd::string::StringExecFns;

verus! {

/// Why a value could not be encoded or a byte string could not be decoded.
#[derive(Clone, Copy, Debug, PartialEq, Eq, Structural)]
pub enum Error {
    /// The bytes end in the middle of a value.
    UnexpectedEof,
    /// A framing offset points before the place where its item starts.
    LengthUnderflow,
    /// A framing offset points past the end of its container's items.
    OffsetOverflow,
    /// A zero byte that must close a string, a maybe or a variant is missing.
    InvalidTerminator,
    /// The signature of a variant does not parse, or nests too deeply.
    BadSignature,
    /// A string is longer than the configured limit.
    OverlongString,
    /// A boolean byte is neither 0 nor 1 (strict decoding only).
    InvalidBool,
    /// The value has a shape that the requested type cannot carry.
    UnsupportedShape,
    /// The byte source or sink failed.
    Io,
}

/// The words that describe an error.
pub open spec fn description(e: Error) -> Seq<char> {
    match e {
        Error::UnexpectedEof => "unexpected end of input"@,
        Error::LengthUnderflow => "framing offset before start of item"@,
        Error::OffsetOverflow => "framing offset past end of container"@,
        Error::InvalidTerminator => "missing zero terminator"@,
        Error::BadSignature => "malformed or too deeply nested signature"@,
        Error::OverlongString => "string longer than the configured limit"@,
        Error::InvalidBool => "boolean byte other than 0 or 1"@,
        Error::UnsupportedShape => "value does not fit the requested type"@,
        Error::Io => "byte source or sink failed"@,
    }
}

impl Error {
    /// A short description for people.
    pub fn describe(&self) -> (text: String)
        ensures
            text@ == description(*self),
    {
        match self {
            Error::UnexpectedEof => String::from_str("unexpected end of input"),
            Error::LengthUnderflow => String::from_str("framing offset before start of item"),
            Error::OffsetOverflow => String::from_str("framing offset past end of container"),
            Error::InvalidTerminator => String::from_str("missing zero terminator"),
            Error::BadSignature => String::from_str("malformed or too deeply nested signature"),
            Error::OverlongString => String::from_str("string longer than the configured limit"),
            Error::InvalidBool => String::from_str("boolean byte other than 0 or 1"),
            Error::UnsupportedShape => String::from_str("value does not fit the requested type"),
            Error::Io => String::from_str("byte source or sink failed"),
        }
    }
}

} // verus!
