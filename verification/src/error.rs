//! Errors of the byte-level protocol encoding.
use vstd::prelude::*;

verus! {

/// The standard library's UTF-8 validation error, carried through unchanged.
#[verifier::external_type_specification]
#[verifier::external_body]
pub struct ExUtf8Error(std::str::Utf8Error);

/// Cloning a `Utf8Error` copies it (it is a `Copy` type).
pub assume_specification[ <std::str::Utf8Error as Clone>::clone ](e: &std::str::Utf8Error) -> (r: std::str::Utf8Error)
    ensures
        r == *e,
;

/// Comparing two `Utf8Error`s; nothing is claimed of the answer.
pub assume_specification[ <std::str::Utf8Error as PartialEq>::eq ](a: &std::str::Utf8Error, b: &std::str::Utf8Error) -> bool;

/// What encoding or decoding protocol data can fail with.
#[derive(Debug, Clone, PartialEq)]
pub enum Error {
    /// Failed to serialize, with a message.
    SerializeMessage(String),
    /// Failed to deserialize, with a message.
    DeserializeMessage(String),
    /// Only sequences of known length may be serialized.
    MissingLength,
    /// Unexpected end of input.
    Eof,
    /// Bytes were left over after deserializing.
    TrailingBytes,
    /// There is no field with the given name.
    UnknownField(&'static str),
    /// The type of the value must be known beforehand.
    UnknownType,
    /// A bool must be either 0 or 1; found the given byte.
    InvalidBool(u8),
    /// An integer did not fit its type when decoding.
    Leb128Overflow,
    /// Expected a char, found an empty string.
    EmptyString,
    /// Expected a char, found a string with several characters.
    MultiCharString,
    /// The bytes were not valid UTF-8.
    Utf(std::str::Utf8Error),
    /// Deserializing an identifier is not supported.
    IdentifierNotSupported,
    /// Ignoring parts of the input is not supported.
    IgnoredNotSupported,
}

} // verus!
