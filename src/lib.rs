//! Reading, editing and writing PNG files as sequences of checksummed chunks.
//!
//! The library splits a PNG byte stream into [`Chunk`]s, checks each chunk's
//! CRC-32, lets a caller add, find and remove chunks, and writes the result
//! back out byte for byte.

mod checksum;
mod text;

pub mod chunk;
pub mod chunk_type;
pub mod commands;
pub mod error;
pub mod png;

pub use chunk::Chunk;
pub use chunk_type::ChunkType;
pub use error::{EncodingError, FormatError, NotFoundError};
pub use png::Png;
