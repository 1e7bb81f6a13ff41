use crate::error::FormatError;
use crate::text::utf8_text;
use vstd::prelude::*;
use vstd::std_specs::iter::IteratorSpec;

verus! {

/// An ASCII capital letter.
pub open spec fn is_upper_byte(b: u8) -> bool {
    65 <= b <= 90
}

/// An ASCII small letter.
pub open spec fn is_lower_byte(b: u8) -> bool {
    97 <= b <= 122
}

pub open spec fn is_alpha_byte(b: u8) -> bool {
    is_upper_byte(b) || is_lower_byte(b)
}

pub open spec fn is_alpha_char(c: char) -> bool {
    (65 <= c as u32 <= 90) || (97 <= c as u32 <= 122)
}

/// Four bytes, each an ASCII letter: what a chunk type is made of.
pub open spec fn is_type_code(b: Seq<u8>) -> bool {
    &&& b.len() == 4
    &&& forall|i: int| 0 <= i < 4 ==> is_alpha_byte(#[trigger] b[i])
}

/// A text that names a chunk type: four ASCII letters.
pub open spec fn is_type_text(s: Seq<char>) -> bool {
    &&& s.len() == 4
    &&& forall|i: int| 0 <= i < 4 ==> is_alpha_char(#[trigger] s[i])
}

/// The text form of type bytes: each byte read as the character of that code.
pub open spec fn text_of(b: Seq<u8>) -> Seq<char> {
    b.map_values(|x: u8| x as char)
}

/// The 4-byte type code of a chunk. Each byte is an ASCII letter; its case
/// carries one of the four property bits.
#[derive(Debug, Clone, Copy, Eq)]
pub struct ChunkType {
    code: [u8; 4],
}

impl View for ChunkType {
    type V = Seq<u8>;

    closed spec fn view(&self) -> Seq<u8> {
        self.code@
    }
}

impl PartialEq for ChunkType {
    fn eq(&self, o: &ChunkType) -> (r: bool) {
        let r = self.code[0] == o.code[0] && self.code[1] == o.code[1] && self.code[2] == o.code[2]
            && self.code[3] == o.code[3];
        proof {
            if r {
                assert(self.code@ =~= o.code@);
            }
        }
        r
    }
}

impl vstd::std_specs::cmp::PartialEqSpecImpl for ChunkType {
    open spec fn obeys_eq_spec() -> bool {
        true
    }

    open spec fn eq_spec(&self, o: &ChunkType) -> bool {
        self@ == o@
    }
}

impl TryFrom<[u8; 4]> for ChunkType {
    type Error = FormatError;

    /// Builds a chunk type from four raw bytes, as [`ChunkType::from_bytes`].
    fn try_from(bytes: [u8; 4]) -> (r: Result<ChunkType, FormatError>)
        ensures
            r is Ok <==> is_type_code(bytes@),
            r matches Ok(t) ==> t@ == bytes@,
            r matches Err(e) ==> e == FormatError::InvalidTypeCode,
    {
        ChunkType::from_bytes(bytes)
    }
}

impl vstd::std_specs::convert::TryFromSpecImpl<[u8; 4]> for ChunkType {
    open spec fn obeys_try_from_spec() -> bool {
        false
    }

    open spec fn try_from_spec(bytes: [u8; 4]) -> Result<ChunkType, FormatError> {
        arbitrary()
    }
}

impl std::str::FromStr for ChunkType {
    type Err = FormatError;

    /// Parses the text form of a chunk type, as [`ChunkType::parse_text`].
    fn from_str(s: &str) -> (r: Result<ChunkType, FormatError>)
        ensures
            r is Ok <==> is_type_text(s@),
            r matches Ok(t) ==> text_of(t@) == s@ && t@ == s@.map_values(|c: char| c as u8),
            s@.len() != 4 ==> r == Err::<ChunkType, FormatError>(FormatError::InvalidLength),
            s@.len() == 4 && !is_type_text(s@) ==> r == Err::<ChunkType, FormatError>(
                FormatError::NonAlphabetic,
            ),
    {
        ChunkType::parse_text(s)
    }
}

impl ChunkType {
    #[verifier::type_invariant]
    pub closed spec fn inv(self) -> bool {
        is_type_code(self.code@)
    }

    /// Builds a chunk type from four raw bytes, which must all be ASCII letters.
    pub fn from_bytes(bytes: [u8; 4]) -> (r: Result<ChunkType, FormatError>)
        ensures
            r is Ok <==> is_type_code(bytes@),
            r matches Ok(t) ==> t@ == bytes@,
            r matches Err(e) ==> e == FormatError::InvalidTypeCode,
    {
        let mut i: usize = 0;
        while i < 4
            invariant
                i <= 4,
                bytes@.len() == 4,
                forall|j: int| 0 <= j < i ==> is_alpha_byte(#[trigger] bytes@[j]),
            decreases 4 - i,
        {
            if !is_alphabetic(bytes[i]) {
                return Err(FormatError::InvalidTypeCode);
            }
            i += 1;
        }
        Ok(ChunkType { code: bytes })
    }

    /// Parses the text form of a chunk type: exactly four ASCII letters.
    pub fn parse_text(s: &str) -> (r: Result<ChunkType, FormatError>)
        ensures
            r is Ok <==> is_type_text(s@),
            r matches Ok(t) ==> text_of(t@) == s@ && t@ == s@.map_values(|c: char| c as u8),
            s@.len() != 4 ==> r == Err::<ChunkType, FormatError>(FormatError::InvalidLength),
            s@.len() == 4 && !is_type_text(s@) ==> r == Err::<ChunkType, FormatError>(
                FormatError::NonAlphabetic,
            ),
    {
        broadcast use vstd::string::axiom_spec_iter, vstd::string::next_postcondition;

        let mut it = s.chars();
        let mut code: Vec<u8> = Vec::new();
        let mut n: usize = 0;
        let mut alpha: bool = true;
        loop
            invariant
                n <= 4,
                n <= s@.len(),
                it.remaining() == s@.skip(n as int),
                code@.len() == n,
                alpha <==> forall|j: int| 0 <= j < n ==> is_alpha_char(#[trigger] s@[j]),
                alpha ==> forall|j: int|
                    0 <= j < n ==> is_alpha_byte(#[trigger] code@[j]) && code@[j] as char == s@[j],
            decreases 5 - n,
        {
            let ghost rest = it.remaining();
            match it.next() {
                None => {
                    assert(s@.skip(n as int).len() == 0);
                    if n != 4 {
                        return Err(FormatError::InvalidLength);
                    }
                    if !alpha {
                        return Err(FormatError::NonAlphabetic);
                    }
                    let t = ChunkType { code: [code[0], code[1], code[2], code[3]] };
                    assert(text_of(t@) =~= s@);
                    assert(t@ =~= s@.map_values(|c: char| c as u8));
                    return Ok(t);
                },
                Some(c) => {
                    assert(c == s@[n as int]);
                    if n == 4 {
                        return Err(FormatError::InvalidLength);
                    }
                    let u = c as u32;
                    if (65 <= u && u <= 90) || (97 <= u && u <= 122) {
                        code.push(u as u8);
                        proof {
                            vstd::utf8::char_u32_cast(c, u);
                            assert((u as u8) as char == u as char);
                        }
                    } else {
                        alpha = false;
                        code.push(0u8);
                    }
                    n += 1;
                    assert(it.remaining() =~= s@.skip(n as int));
                },
            }
        }
    }

    /// The four type bytes.
    pub fn bytes(&self) -> (r: [u8; 4])
        ensures
            r@ == self@,
            is_type_code(r@),
    {
        proof {
            use_type_invariant(self);
        }
        self.code
    }

    /// Critical chunks have a capital first letter.
    pub fn is_critical(&self) -> (r: bool)
        ensures
            r == is_upper_byte(self@[0]),
    {
        is_uppercase(self.code[0])
    }

    /// Public chunks have a capital second letter.
    pub fn is_public(&self) -> (r: bool)
        ensures
            r == is_upper_byte(self@[1]),
    {
        is_uppercase(self.code[1])
    }

    /// The reserved bit is valid when the third letter is a capital.
    pub fn is_reserved_bit_valid(&self) -> (r: bool)
        ensures
            r == is_upper_byte(self@[2]),
    {
        is_uppercase(self.code[2])
    }

    /// Safe-to-copy chunks have a small fourth letter.
    pub fn is_safe_to_copy(&self) -> (r: bool)
        ensures
            r == is_lower_byte(self@[3]),
    {
        is_lowercase(self.code[3])
    }

    /// A type is valid here when it is private and its reserved bit is valid.
    pub fn is_valid(&self) -> (r: bool)
        ensures
            r == (!is_upper_byte(self@[1]) && is_upper_byte(self@[2])),
    {
        !self.is_public() && self.is_reserved_bit_valid()
    }

    /// The four letters as text.
    pub fn to_string(&self) -> (r: String)
        ensures
            r@ == text_of(self@),
    {
        proof {
            use_type_invariant(self);
            let chars = text_of(self@);
            assert(vstd::utf8::is_ascii_chars(chars));
            vstd::utf8::is_ascii_chars_encode_utf8(chars);
            vstd::utf8::encode_utf8_valid_utf8(chars);
            vstd::utf8::encode_utf8_decode_utf8(chars);
            assert(vstd::utf8::encode_utf8(chars) =~= self@);
        }
        match utf8_text(self.code.as_slice()) {
            Some(s) => s,
            None => String::new(),
        }
    }
}

/// What every chunk type holds: four ASCII letters.
pub proof fn lemma_type_code(t: ChunkType)
    requires
        t.inv(),
    ensures
        is_type_code(t@),
{
}

/// The text of a chunk type is four letters.
pub proof fn lemma_type_text(b: Seq<u8>)
    requires
        is_type_code(b),
    ensures
        is_type_text(text_of(b)),
{
    assert forall|i: int| 0 <= i < 4 implies is_alpha_char(#[trigger] text_of(b)[i]) by {
        assert(is_alpha_byte(b[i]));
        assert(text_of(b)[i] == b[i] as char);
    }
}

fn is_alphabetic(b: u8) -> (r: bool)
    ensures
        r == is_alpha_byte(b),
{
    is_uppercase(b) || is_lowercase(b)
}

fn is_uppercase(b: u8) -> (r: bool)
    ensures
        r == is_upper_byte(b),
{
    65 <= b && b <= 90
}

fn is_lowercase(b: u8) -> (r: bool)
    ensures
        r == is_lower_byte(b),
{
    97 <= b && b <= 122
}

} // verus!
