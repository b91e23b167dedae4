//! The closed taxonomy of decoding failures.

use vstd::prelude::*;

verus! {

/// What went wrong while decoding.  Transport failures poison the stream;
/// the remaining kinds are fatal format errors.
#[derive(Debug, PartialEq)]
pub enum DecodeError {
    /// The stream ended before the bytes a frame or blob announced.
    Eof,
    /// The observed frame's category is not the one the current event expects.
    BadHeader,
    /// A byte blob decoded as a string is not valid UTF-8.
    Utf8,
    /// A decoded code point is not a Unicode scalar value.
    BadChar,
    /// An observed length disagrees with a declared fixed size.
    BadLength,
    /// A union observed a tag with no matching variant in the decoder's definition.
    UnknownVariant { enum_name: String, tag: u32 },
}

/// The specification-level mirror of [`DecodeError`]: names are character
/// sequences, so that decoding contracts can be stated wholly in ghost terms.
pub enum WireError {
    Eof,
    BadHeader,
    Utf8,
    BadChar,
    BadLength,
    UnknownVariant { enum_name: Seq<char>, tag: u32 },
}

impl View for DecodeError {
    type V = WireError;

    open spec fn view(&self) -> WireError {
        match self {
            DecodeError::Eof => WireError::Eof,
            DecodeError::BadHeader => WireError::BadHeader,
            DecodeError::Utf8 => WireError::Utf8,
            DecodeError::BadChar => WireError::BadChar,
            DecodeError::BadLength => WireError::BadLength,
            DecodeError::UnknownVariant { enum_name, tag } => WireError::UnknownVariant {
                enum_name: enum_name@,
                tag: *tag,
            },
        }
    }
}

} // verus!
