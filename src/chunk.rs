use crate::checksum::{crc32, crc32_of};
use crate::chunk_type::{is_type_code, lemma_type_code, ChunkType};
use crate::error::{EncodingError, FormatError};
use crate::text::utf8_text;
use vstd::prelude::*;
use vstd::utf8::{decode_utf8, valid_utf8};

verus! {

/// The big-endian bytes of a 32-bit number.
pub open spec fn be32(n: u32) -> Seq<u8> {
    seq![(n >> 24u32) as u8, (n >> 16u32) as u8, (n >> 8u32) as u8, n as u8]
}

/// The number that four big-endian bytes stand for.
pub open spec fn be32_value(b: Seq<u8>) -> u32 {
    ((b[0] as u32) << 24u32) | ((b[1] as u32) << 16u32) | ((b[2] as u32) << 8u32) | (b[3] as u32)
}

/// The CRC of a chunk: over its type bytes followed by its data.
pub open spec fn checksum_of(t: Seq<u8>, d: Seq<u8>) -> u32 {
    crc32_of(t + d)
}

/// The bytes of a chunk on disk: data length, type, data, CRC.
pub open spec fn encoding_of(t: Seq<u8>, d: Seq<u8>) -> Seq<u8> {
    be32(d.len() as u32) + t + d + be32(checksum_of(t, d))
}

/// What reading one chunk out of exactly these bytes gives: its type and data,
/// or the first fault found. The length field is not consulted; the data is
/// whatever lies between the type and the last four bytes.
pub open spec fn chunk_reading(b: Seq<u8>) -> Result<(Seq<u8>, Seq<u8>), FormatError> {
    if b.len() < 12 {
        Err(FormatError::TooShort)
    } else if b.len() - 12 > u32::MAX {
        Err(FormatError::TooLong)
    } else if !is_type_code(b.subrange(4, 8)) {
        Err(FormatError::InvalidTypeCode)
    } else if be32_value(b.subrange(b.len() - 4, b.len() as int)) != crc32_of(
        b.subrange(4, b.len() - 4),
    ) {
        Err(FormatError::ChecksumMismatch)
    } else {
        Ok((b.subrange(4, 8), b.subrange(8, b.len() - 4)))
    }
}

/// Reading back the big-endian bytes of a number gives the number.
pub proof fn lemma_be32_value(n: u32)
    ensures
        be32_value(be32(n)) == n,
{
    assert(((((n >> 24u32) as u8) as u32) << 24u32) | ((((n >> 16u32) as u8) as u32) << 16u32)
        | ((((n >> 8u32) as u8) as u32) << 8u32) | ((n as u8) as u32) == n) by (bit_vector);
}

/// Bytes `b` with bit `bit` of byte `i` inverted.
pub open spec fn flip_bit(b: Seq<u8>, i: int, bit: u8) -> Seq<u8> {
    b.update(i, b[i] ^ (1u8 << bit))
}

/// Writing a chunk out and reading it back gives the same type and data, and
/// the CRC field that was written is the chunk's CRC.
pub proof fn lemma_round_trip(t: Seq<u8>, d: Seq<u8>)
    requires
        is_type_code(t),
        d.len() <= u32::MAX,
    ensures
        chunk_reading(encoding_of(t, d)) == Ok::<(Seq<u8>, Seq<u8>), FormatError>((t, d)),
        ({
            let e = encoding_of(t, d);
            be32_value(e.subrange(e.len() - 4, e.len() as int)) == checksum_of(t, d)
        }),
{
    let e = encoding_of(t, d);
    let n = e.len();
    assert(n == d.len() + 12);
    assert(e.subrange(4, 8) =~= t);
    assert(e.subrange(8, n - 4) =~= d);
    assert(e.subrange(4, n - 4) =~= t + d);
    assert(e.subrange(n - 4, n as int) =~= be32(checksum_of(t, d)));
    lemma_be32_value(checksum_of(t, d));
}

/// Inverting one bit of a written chunk's type or data is caught by the CRC
/// comparison whenever the CRC over the altered type and data differs from the
/// stored one and the type is still four letters.
pub proof fn lemma_flipped_bit_caught(t: Seq<u8>, d: Seq<u8>, i: int, bit: u8)
    requires
        is_type_code(t),
        d.len() <= u32::MAX,
        4 <= i < 8 + d.len(),
        bit < 8,
        is_type_code(flip_bit(encoding_of(t, d), i, bit).subrange(4, 8)),
        crc32_of(flip_bit(encoding_of(t, d), i, bit).subrange(4, d.len() + 8int)) != checksum_of(t, d),
    ensures
        chunk_reading(flip_bit(encoding_of(t, d), i, bit)) == Err::<(Seq<u8>, Seq<u8>), FormatError>(
            FormatError::ChecksumMismatch,
        ),
{
    let e = encoding_of(t, d);
    let f = flip_bit(e, i, bit);
    let n = e.len();
    lemma_round_trip(t, d);
    assert(f.subrange(n - 4, n as int) =~= e.subrange(n - 4, n as int));
}

/// A chunk's type and data as they can stand in a file: four letters, and
/// data whose length fits the 32-bit length field.
pub open spec fn chunk_ok(c: (Seq<u8>, Seq<u8>)) -> bool {
    is_type_code(c.0) && c.1.len() <= u32::MAX
}

/// What every chunk holds.
pub proof fn lemma_chunk_ok(c: Chunk)
    requires
        c.inv(),
    ensures
        chunk_ok(c@),
{
}

/// One chunk: a type and its data. Length and CRC are derived from them.
#[derive(Debug)]
pub struct Chunk {
    chunk_type: ChunkType,
    data: Vec<u8>,
}

impl View for Chunk {
    /// The type bytes and the data.
    type V = (Seq<u8>, Seq<u8>);

    closed spec fn view(&self) -> (Seq<u8>, Seq<u8>) {
        (self.chunk_type@, self.data@)
    }
}

impl Chunk {
    #[verifier::type_invariant]
    pub closed spec fn inv(self) -> bool {
        self.data@.len() <= u32::MAX && is_type_code(self.chunk_type@)
    }

    /// A chunk of the given type holding the given data.
    pub fn new(chunk_type: ChunkType, data: Vec<u8>) -> (r: Chunk)
        requires
            data@.len() <= u32::MAX,
        ensures
            r@ == (chunk_type@, data@),
            chunk_ok(r@),
    {
        proof {
            use_type_invariant(&chunk_type);
            lemma_type_code(chunk_type);
        }
        Chunk { chunk_type, data }
    }

    /// Reads a chunk from exactly the bytes it occupies.
    pub fn parse(bytes: &[u8]) -> (r: Result<Chunk, FormatError>)
        ensures
            match chunk_reading(bytes@) {
                Ok(v) => r matches Ok(c) && c@ == v,
                Err(e) => r matches Err(f) && f == e,
            },
    {
        let len = bytes.len();
        if len < 12 {
            return Err(FormatError::TooShort);
        }
        if len - 12 > u32::MAX as usize {
            return Err(FormatError::TooLong);
        }
        let chunk_type = match ChunkType::from_bytes([bytes[4], bytes[5], bytes[6], bytes[7]]) {
            Ok(t) => t,
            Err(e) => {
                assert(seq![bytes@[4], bytes@[5], bytes@[6], bytes@[7]] =~= bytes@.subrange(4, 8));
                return Err(e);
            },
        };
        assert(chunk_type@ =~= bytes@.subrange(4, 8));
        let mut data: Vec<u8> = Vec::new();
        let mut i: usize = 8;
        while i < len - 4
            invariant
                8 <= i <= len - 4,
                len == bytes@.len(),
                len >= 12,
                len - 12 <= u32::MAX,
                data@ == bytes@.subrange(8, i as int),
            decreases len - 4 - i,
        {
            data.push(bytes[i]);
            i += 1;
            assert(data@ =~= bytes@.subrange(8, i as int));
        }
        let chunk = Chunk { chunk_type, data };
        let stored = ((bytes[len - 4] as u32) << 24u32) | ((bytes[len - 3] as u32) << 16u32) | ((
        bytes[len - 2] as u32) << 8u32) | (bytes[len - 1] as u32);
        let computed = chunk.crc();
        proof {
            assert(bytes@.subrange(4, len - 4) =~= bytes@.subrange(4, 8) + bytes@.subrange(8, len - 4));
            let tail = bytes@.subrange(len - 4, len as int);
            assert(tail[0] == bytes@[len - 4] && tail[1] == bytes@[len - 3] && tail[2] == bytes@[len - 2]
                && tail[3] == bytes@[len - 1]);
        }
        if stored != computed {
            return Err(FormatError::ChecksumMismatch);
        }
        Ok(chunk)
    }

    /// The number of data bytes.
    pub fn length(&self) -> (r: u32)
        ensures
            r == self@.1.len(),
    {
        proof {
            use_type_invariant(self);
        }
        self.data.len() as u32
    }

    /// The chunk's type.
    pub fn chunk_type(&self) -> (r: &ChunkType)
        ensures
            r@ == self@.0,
    {
        &self.chunk_type
    }

    /// The chunk's data.
    pub fn data(&self) -> (r: &[u8])
        ensures
            r@ == self@.1,
    {
        self.data.as_slice()
    }

    /// The CRC over the type bytes followed by the data.
    pub fn crc(&self) -> (r: u32)
        ensures
            r == checksum_of(self@.0, self@.1),
    {
        let mut input: Vec<u8> = Vec::new();
        let code = self.chunk_type.bytes();
        input.extend_from_slice(code.as_slice());
        input.extend_from_slice(self.data.as_slice());
        assert(input@ =~= self@.0 + self@.1);
        crc32(input.as_slice())
    }

    /// The data read as UTF-8 text.
    pub fn data_as_string(&self) -> (r: Result<String, EncodingError>)
        ensures
            r is Ok <==> valid_utf8(self@.1),
            r matches Ok(s) ==> s@ == decode_utf8(self@.1),
    {
        match utf8_text(self.data.as_slice()) {
            Some(s) => Ok(s),
            None => Err(EncodingError),
        }
    }

    /// The chunk as it is written on disk: length, type, data and CRC.
    pub fn as_bytes(&self) -> (r: Vec<u8>)
        ensures
            r@ == encoding_of(self@.0, self@.1),
    {
        let mut out: Vec<u8> = Vec::new();
        push_be32(&mut out, self.length());
        let code = self.chunk_type.bytes();
        out.extend_from_slice(code.as_slice());
        out.extend_from_slice(self.data.as_slice());
        push_be32(&mut out, self.crc());
        assert(out@ =~= encoding_of(self@.0, self@.1));
        out
    }
}

impl<'a> TryFrom<&'a [u8]> for Chunk {
    type Error = FormatError;

    /// Reads a chunk from exactly the bytes it occupies, as [`Chunk::parse`].
    fn try_from(bytes: &'a [u8]) -> (r: Result<Chunk, FormatError>)
        ensures
            match chunk_reading(bytes@) {
                Ok(v) => r matches Ok(c) && c@ == v,
                Err(e) => r matches Err(f) && f == e,
            },
    {
        Chunk::parse(bytes)
    }
}

impl<'a> vstd::std_specs::convert::TryFromSpecImpl<&'a [u8]> for Chunk {
    open spec fn obeys_try_from_spec() -> bool {
        false
    }

    open spec fn try_from_spec(bytes: &'a [u8]) -> Result<Chunk, FormatError> {
        arbitrary()
    }
}

/// Appends the big-endian bytes of `n`.
fn push_be32(out: &mut Vec<u8>, n: u32)
    ensures
        final(out)@ == old(out)@ + be32(n),
{
    out.push((n >> 24u32) as u8);
    out.push((n >> 16u32) as u8);
    out.push((n >> 8u32) as u8);
    out.push(n as u8);
    assert(final(out)@ =~= old(out)@ + be32(n));
}

} // verus!
