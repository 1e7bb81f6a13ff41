use vstd::prelude::*;

verus! {

/// Why a byte sequence or a text does not form a chunk, a chunk type or a PNG file.
#[derive(Debug, Clone, Copy, PartialEq, Eq, Structural)]
pub enum FormatError {
    /// The input does not begin with the PNG signature.
    BadSignature,
    /// The buffer is too small to hold the chunk that it announces.
    TooShort,
    /// The data is longer than the 32-bit length field can tell.
    TooLong,
    /// The stored CRC differs from the one computed over type and data.
    ChecksumMismatch,
    /// The four type bytes are not all ASCII letters.
    InvalidTypeCode,
    /// A chunk type text is not exactly four characters long.
    InvalidLength,
    /// A chunk type text holds a character that is not an ASCII letter.
    NonAlphabetic,
}

/// No chunk of the requested type is present.
#[derive(Debug, Clone, Copy, PartialEq, Eq, Structural)]
pub struct NotFoundError;

/// The chunk's data is not valid UTF-8 text.
#[derive(Debug, Clone, Copy, PartialEq, Eq, Structural)]
pub struct EncodingError;

} // verus!
