use pngme::{ChunkType, FormatError};
use std::convert::TryFrom;
use std::str::FromStr;

#[test]
pub fn test_chunk_type_from_bytes() {
    let expected = [82, 117, 83, 116];
    let actual = ChunkType::try_from([82, 117, 83, 116]).unwrap();

    assert_eq!(expected, actual.bytes());
}

#[test]
pub fn test_chunk_type_from_str() {
    let expected = ChunkType::try_from([82, 117, 83, 116]).unwrap();
    let actual = ChunkType::from_str("RuSt").unwrap();
    assert_eq!(expected, actual);
}

#[test]
pub fn test_chunk_type_is_critical() {
    let chunk = ChunkType::from_str("RuSt").unwrap();
    assert!(chunk.is_critical());
}

#[test]
pub fn test_chunk_type_is_not_critical() {
    let chunk = ChunkType::from_str("ruSt").unwrap();
    assert!(!chunk.is_critical());
}

#[test]
pub fn test_chunk_type_is_public() {
    let chunk = ChunkType::from_str("RUSt").unwrap();
    assert!(chunk.is_public());
}

#[test]
pub fn test_chunk_type_is_not_public() {
    let chunk = ChunkType::from_str("RuSt").unwrap();
    assert!(!chunk.is_public());
}

#[test]
pub fn test_chunk_type_is_reserved_bit_valid() {
    let chunk = ChunkType::from_str("RuSt").unwrap();
    assert!(chunk.is_reserved_bit_valid());
}

#[test]
pub fn test_chunk_type_is_reserved_bit_invalid() {
    let chunk = ChunkType::from_str("Rust").unwrap();
    assert!(!chunk.is_reserved_bit_valid());
}

#[test]
pub fn test_chunk_type_is_safe_to_copy() {
    let chunk = ChunkType::from_str("RuSt").unwrap();
    assert!(chunk.is_safe_to_copy());
}

#[test]
pub fn test_chunk_type_is_unsafe_to_copy() {
    let chunk = ChunkType::from_str("RuST").unwrap();
    assert!(!chunk.is_safe_to_copy());
}

#[test]
pub fn test_valid_chunk_is_valid() {
    let chunk = ChunkType::from_str("RuSt").unwrap();
    assert!(chunk.is_valid());
}

#[test]
pub fn test_invalid_chunk_is_valid() {
    let chunk = ChunkType::from_str("Rust").unwrap();
    assert!(!chunk.is_valid());

    let chunk = ChunkType::from_str("Ru1t");
    assert!(chunk.is_err());
}

#[test]
pub fn test_chunk_type_string() {
    let chunk = ChunkType::from_str("RuSt").unwrap();
    assert_eq!(&chunk.to_string(), "RuSt");
}

#[test]
pub fn test_chunk_type_trait_impls() {
    let chunk_type_1: ChunkType = TryFrom::try_from([82, 117, 83, 116]).unwrap();
    let chunk_type_2: ChunkType = FromStr::from_str("RuSt").unwrap();
    let _chunk_string = chunk_type_1.to_string();
    let _are_chunks_equal = chunk_type_1 == chunk_type_2;
}

#[test]
fn parse_text_accepts_exactly_four_letters() {
    assert!(ChunkType::parse_text("RuSt").is_ok());
    assert!(ChunkType::parse_text("abcd").is_ok());
    assert_eq!(ChunkType::parse_text("Ru1t"), Err(FormatError::NonAlphabetic));
    assert_eq!(ChunkType::parse_text("Ru"), Err(FormatError::InvalidLength));
    assert_eq!(ChunkType::parse_text(""), Err(FormatError::InvalidLength));
    assert_eq!(ChunkType::parse_text("RuStX"), Err(FormatError::InvalidLength));
    assert_eq!(ChunkType::parse_text("Ru t"), Err(FormatError::NonAlphabetic));
    assert_eq!(ChunkType::parse_text("Ruéa"), Err(FormatError::NonAlphabetic));
    assert_eq!(ChunkType::parse_text("Ruée"), Err(FormatError::NonAlphabetic));
    assert_eq!(ChunkType::parse_text("Ruéab"), Err(FormatError::InvalidLength));
}

#[test]
fn from_bytes_rejects_non_letters() {
    assert_eq!(ChunkType::from_bytes([82, 117, 49, 116]), Err(FormatError::InvalidTypeCode));
    assert_eq!(ChunkType::from_bytes([0, 0, 0, 0]), Err(FormatError::InvalidTypeCode));
    assert_eq!(ChunkType::from_bytes([91, 65, 65, 65]), Err(FormatError::InvalidTypeCode));
    assert_eq!(ChunkType::from_bytes([65, 65, 65, 64]), Err(FormatError::InvalidTypeCode));
    assert_eq!(ChunkType::from_bytes([65, 90, 97, 122]).unwrap().bytes(), [65, 90, 97, 122]);
}

#[test]
fn flags_of_rust_worked_example() {
    let t = ChunkType::from_bytes([82, 117, 83, 116]).unwrap();
    assert!(t.is_critical());
    assert!(!t.is_public());
    assert!(t.is_reserved_bit_valid());
    assert!(t.is_safe_to_copy());
    assert!(t.is_valid());
}

#[test]
fn public_type_is_not_valid() {
    let t = ChunkType::from_str("RUSt").unwrap();
    assert!(t.is_reserved_bit_valid());
    assert!(!t.is_valid());
}

#[test]
fn text_of_lowercase_type() {
    let t = ChunkType::from_bytes([105, 72, 68, 82]).unwrap();
    assert_eq!(t.to_string(), String::from("iHDR"));
}
