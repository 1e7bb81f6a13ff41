use pngme::{Chunk, ChunkType, EncodingError, FormatError};
use std::convert::TryFrom;
use std::str::FromStr;

fn testing_chunk() -> Chunk {
    let data_length: u32 = 42;
    let chunk_type = "RuSt".as_bytes();
    let message_bytes = "This is where your secret message will be!".as_bytes();
    let crc: u32 = 2882656334;

    let chunk_data: Vec<u8> = data_length
        .to_be_bytes()
        .iter()
        .chain(chunk_type.iter())
        .chain(message_bytes.iter())
        .chain(crc.to_be_bytes().iter())
        .copied()
        .collect();

    Chunk::try_from(chunk_data.as_ref()).unwrap()
}

#[test]
fn test_new_chunk() {
    let chunk_type = ChunkType::from_str("RuSt").unwrap();
    let data = "This is where your secret message will be!"
        .as_bytes()
        .to_vec();
    let chunk = Chunk::new(chunk_type, data);
    assert_eq!(chunk.length(), 42);
    assert_eq!(chunk.crc(), 2882656334);
}

#[test]
fn test_chunk_length() {
    let chunk = testing_chunk();
    assert_eq!(chunk.length(), 42);
}

#[test]
fn test_chunk_type() {
    let chunk = testing_chunk();
    assert_eq!(chunk.chunk_type().to_string(), String::from("RuSt"));
}

#[test]
fn test_chunk_string() {
    let chunk = testing_chunk();
    let chunk_string = chunk.data_as_string().unwrap();
    let expected_chunk_string = String::from("This is where your secret message will be!");
    assert_eq!(chunk_string, expected_chunk_string);
}

#[test]
fn test_chunk_crc() {
    let chunk = testing_chunk();
    assert_eq!(chunk.crc(), 2882656334);
}

#[test]
fn test_valid_chunk_from_bytes() {
    let data_length: u32 = 42;
    let chunk_type = "RuSt".as_bytes();
    let message_bytes = "This is where your secret message will be!".as_bytes();
    let crc: u32 = 2882656334;

    let chunk_data: Vec<u8> = data_length
        .to_be_bytes()
        .iter()
        .chain(chunk_type.iter())
        .chain(message_bytes.iter())
        .chain(crc.to_be_bytes().iter())
        .copied()
        .collect();

    let chunk = Chunk::try_from(chunk_data.as_ref()).unwrap();

    let chunk_string = chunk.data_as_string().unwrap();
    let expected_chunk_string = String::from("This is where your secret message will be!");

    assert_eq!(chunk.length(), 42);
    assert_eq!(chunk.chunk_type().to_string(), String::from("RuSt"));
    assert_eq!(chunk_string, expected_chunk_string);
    assert_eq!(chunk.crc(), 2882656334);
}

#[test]
fn test_invalid_chunk_from_bytes() {
    let data_length: u32 = 42;
    let chunk_type = "RuSt".as_bytes();
    let message_bytes = "This is where your secret message will be!".as_bytes();
    let crc: u32 = 2882656333;

    let chunk_data: Vec<u8> = data_length
        .to_be_bytes()
        .iter()
        .chain(chunk_type.iter())
        .chain(message_bytes.iter())
        .chain(crc.to_be_bytes().iter())
        .copied()
        .collect();

    let chunk = Chunk::try_from(chunk_data.as_ref());

    assert!(chunk.is_err());
}

#[test]
pub fn test_chunk_trait_impls() {
    let data_length: u32 = 42;
    let chunk_type = "RuSt".as_bytes();
    let message_bytes = "This is where your secret message will be!".as_bytes();
    let crc: u32 = 2882656334;

    let chunk_data: Vec<u8> = data_length
        .to_be_bytes()
        .iter()
        .chain(chunk_type.iter())
        .chain(message_bytes.iter())
        .chain(crc.to_be_bytes().iter())
        .copied()
        .collect();

    let chunk: Chunk = TryFrom::try_from(chunk_data.as_ref()).unwrap();

    let _chunk_string = format!("{:?}", chunk);
}

fn rust_chunk() -> Chunk {
    let t = ChunkType::from_str("RuSt").unwrap();
    Chunk::new(t, b"This is where your secret message will be!".to_vec())
}

#[test]
fn reference_vector_bytes() {
    let bytes = rust_chunk().as_bytes();
    assert_eq!(bytes.len(), 54);
    assert_eq!(&bytes[0..4], &[0, 0, 0, 42]);
    assert_eq!(&bytes[4..8], b"RuSt");
    assert_eq!(&bytes[8..50], b"This is where your secret message will be!");
    assert_eq!(&bytes[50..54], &2882656334u32.to_be_bytes());
}

#[test]
fn written_chunk_reads_back() {
    let c = rust_chunk();
    let back = Chunk::parse(&c.as_bytes()).unwrap();
    assert_eq!(back.chunk_type(), c.chunk_type());
    assert_eq!(back.data(), c.data());
    assert_eq!(back.crc(), c.crc());
    assert_eq!(back.as_bytes(), c.as_bytes());

    let empty = Chunk::new(ChunkType::from_str("IEND").unwrap(), Vec::new());
    let bytes = empty.as_bytes();
    assert_eq!(bytes, vec![0, 0, 0, 0, 73, 69, 78, 68, 0xAE, 0x42, 0x60, 0x82]);
    let back = Chunk::parse(&bytes).unwrap();
    assert_eq!(back.length(), 0);
    assert_eq!(back.data(), &[] as &[u8]);
}

#[test]
fn one_flipped_bit_is_caught() {
    let bytes = rust_chunk().as_bytes();
    for i in 8..50 {
        for bit in 0..8 {
            let mut f = bytes.clone();
            f[i] ^= 1 << bit;
            assert_eq!(Chunk::parse(&f).unwrap_err(), FormatError::ChecksumMismatch);
        }
    }
    for i in 4..8 {
        let mut f = bytes.clone();
        f[i] ^= 0x20;
        assert_eq!(Chunk::parse(&f).unwrap_err(), FormatError::ChecksumMismatch);
    }
}

#[test]
fn flipped_type_bit_leaving_letters_is_invalid_type() {
    let mut f = rust_chunk().as_bytes();
    f[5] ^= 0x80;
    assert_eq!(Chunk::parse(&f).unwrap_err(), FormatError::InvalidTypeCode);
}

#[test]
fn chunk_shorter_than_twelve_bytes() {
    assert_eq!(Chunk::parse(&[0, 0, 0, 0, 82, 117, 83, 116, 1, 2, 3]).unwrap_err(), FormatError::TooShort);
    assert_eq!(Chunk::parse(&[]).unwrap_err(), FormatError::TooShort);
}

#[test]
fn length_field_is_not_consulted() {
    let mut bytes = rust_chunk().as_bytes();
    bytes[3] = 7;
    let c = Chunk::parse(&bytes).unwrap();
    assert_eq!(c.length(), 42);
    assert_eq!(&c.as_bytes()[0..4], &[0, 0, 0, 42]);
}

#[test]
fn data_that_is_not_text() {
    let c = Chunk::new(ChunkType::from_str("RuSt").unwrap(), vec![0xff, 0xfe, 0x41]);
    assert_eq!(c.data_as_string(), Err(EncodingError));
    let c = Chunk::new(ChunkType::from_str("RuSt").unwrap(), "héllo".as_bytes().to_vec());
    assert_eq!(c.data_as_string().unwrap(), "héllo");
}
