use crate::chunk::Chunk;
use crate::chunk_type::{is_type_text, ChunkType};
use crate::error::{EncodingError, FormatError, NotFoundError};
use crate::png::{is_first_of_type, lacks_type, png_encoding, png_reading, Png};
use vstd::prelude::*;
use vstd::utf8::{decode_utf8, valid_utf8};

verus! {

/// Why hiding, finding or removing a message failed.
#[derive(Debug, Clone, Copy, PartialEq, Eq, Structural)]
pub enum CommandError {
    /// The file, or the chunk type text, is malformed.
    Format(FormatError),
    /// The file holds no chunk of the requested type.
    NotFound(NotFoundError),
    /// The chunk's data is not UTF-8 text.
    Encoding(EncodingError),
}

/// The bytes of a text made only of ASCII characters.
pub open spec fn ascii_bytes(s: Seq<char>) -> Seq<u8> {
    s.map_values(|c: char| c as u8)
}

/// The error that reading the chunk type text `s` gives, where it is not four letters.
pub open spec fn type_text_error(s: Seq<char>) -> FormatError {
    if s.len() != 4 {
        FormatError::InvalidLength
    } else {
        FormatError::NonAlphabetic
    }
}

/// Hides `message` in the file `file`: a chunk of type `chunk_type` holding it
/// is added at the end, and the new file's bytes are returned.
pub fn encode(file: &[u8], chunk_type: &str, message: Vec<u8>) -> (r: Result<Vec<u8>, CommandError>)
    requires
        message@.len() <= u32::MAX,
    ensures
        match png_reading(file@) {
            Err(e) => r == Err::<Vec<u8>, CommandError>(CommandError::Format(e)),
            Ok(cs) => if !is_type_text(chunk_type@) {
                r == Err::<Vec<u8>, CommandError>(
                    CommandError::Format(type_text_error(chunk_type@)),
                )
            } else {
                r matches Ok(out) && out@ == png_encoding(
                    cs.push((ascii_bytes(chunk_type@), message@)),
                )
            },
        },
{
    let mut png = match Png::parse(file) {
        Ok(p) => p,
        Err(e) => {
            return Err(CommandError::Format(e));
        },
    };
    let t = match ChunkType::parse_text(chunk_type) {
        Ok(t) => t,
        Err(e) => {
            return Err(CommandError::Format(e));
        },
    };
    png.append_chunk(Chunk::new(t, message));
    Ok(png.as_bytes())
}

/// The message held in the first chunk of type `chunk_type` of the file
/// `file`, read as text.
pub fn decode(file: &[u8], chunk_type: &str) -> (r: Result<String, CommandError>)
    ensures
        match png_reading(file@) {
            Err(e) => r == Err::<String, CommandError>(CommandError::Format(e)),
            Ok(cs) => if lacks_type(cs, chunk_type@) {
                r == Err::<String, CommandError>(CommandError::NotFound(NotFoundError))
            } else {
                exists|i: int|
                    is_first_of_type(cs, chunk_type@, i) && if valid_utf8(#[trigger] cs[i].1) {
                        r matches Ok(s) && s@ == decode_utf8(cs[i].1)
                    } else {
                        r == Err::<String, CommandError>(CommandError::Encoding(EncodingError))
                    }
            },
        },
{
    let png = match Png::parse(file) {
        Ok(p) => p,
        Err(e) => {
            return Err(CommandError::Format(e));
        },
    };
    match png.chunk_by_type(chunk_type) {
        None => Err(CommandError::NotFound(NotFoundError)),
        Some(c) => match c.data_as_string() {
            Ok(s) => Ok(s),
            Err(e) => Err(CommandError::Encoding(e)),
        },
    }
}

/// Takes the first chunk of type `chunk_type` out of the file `file`; returns
/// the new file's bytes and the chunk that was taken out.
pub fn remove(file: &[u8], chunk_type: &str) -> (r: Result<(Vec<u8>, Chunk), CommandError>)
    ensures
        match png_reading(file@) {
            Err(e) => r == Err::<(Vec<u8>, Chunk), CommandError>(CommandError::Format(e)),
            Ok(cs) => if lacks_type(cs, chunk_type@) {
                r == Err::<(Vec<u8>, Chunk), CommandError>(CommandError::NotFound(NotFoundError))
            } else {
                exists|i: int|
                    is_first_of_type(cs, chunk_type@, i) && (r matches Ok((out, c)) && c@
                        == #[trigger] cs[i] && out@ == png_encoding(cs.remove(i)))
            },
        },
{
    let mut png = match Png::parse(file) {
        Ok(p) => p,
        Err(e) => {
            return Err(CommandError::Format(e));
        },
    };
    match png.remove_chunk(chunk_type) {
        Ok(c) => Ok((png.as_bytes(), c)),
        Err(e) => Err(CommandError::NotFound(e)),
    }
}

} // verus!
