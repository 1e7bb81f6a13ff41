use crate::chunk::{be32_value, chunk_ok, chunk_reading, lemma_chunk_ok, encoding_of, lemma_be32_value, lemma_round_trip, Chunk};
use crate::chunk_type::{is_type_text, lemma_type_text, text_of};
use crate::error::{FormatError, NotFoundError};
use vstd::prelude::*;
use vstd::slice::slice_subrange;

verus! {

/// The eight bytes that open every PNG file.
pub open spec fn signature() -> Seq<u8> {
    seq![137u8, 80u8, 78u8, 71u8, 13u8, 10u8, 26u8, 10u8]
}

/// Every chunk of the sequence can stand in a file.
pub open spec fn all_chunks_ok(cs: Seq<(Seq<u8>, Seq<u8>)>) -> bool {
    forall|i: int| 0 <= i < cs.len() ==> chunk_ok(#[trigger] cs[i])
}

/// The bytes of a sequence of chunks, one after the other.
pub open spec fn chunks_encoding(cs: Seq<(Seq<u8>, Seq<u8>)>) -> Seq<u8>
    decreases cs.len(),
{
    if cs.len() == 0 {
        Seq::empty()
    } else {
        encoding_of(cs[0].0, cs[0].1) + chunks_encoding(cs.drop_first())
    }
}

/// The bytes of a whole file: the signature, then the chunks.
pub open spec fn png_encoding(cs: Seq<(Seq<u8>, Seq<u8>)>) -> Seq<u8> {
    signature() + chunks_encoding(cs)
}

/// `acc` followed by what was read, or the failure.
pub open spec fn prepend(
    acc: Seq<(Seq<u8>, Seq<u8>)>,
    r: Result<Seq<(Seq<u8>, Seq<u8>)>, FormatError>,
) -> Result<Seq<(Seq<u8>, Seq<u8>)>, FormatError> {
    match r {
        Ok(s) => Ok(acc + s),
        Err(e) => Err(e),
    }
}

/// Reading chunks one after another until the bytes run out. Each chunk's
/// length field says where it ends; the first fault ends the reading.
pub open spec fn chunks_reading(b: Seq<u8>) -> Result<Seq<(Seq<u8>, Seq<u8>)>, FormatError>
    decreases b.len(),
{
    if b.len() == 0 {
        Ok(Seq::empty())
    } else if b.len() < 12 || b.len() < be32_value(b) as int + 12 {
        Err(FormatError::TooShort)
    } else {
        let n = be32_value(b) as int + 12;
        match chunk_reading(b.subrange(0, n)) {
            Err(e) => Err(e),
            Ok(c) => prepend(seq![c], chunks_reading(b.subrange(n, b.len() as int))),
        }
    }
}

/// Reading a whole file: the signature, then the chunks.
pub open spec fn png_reading(b: Seq<u8>) -> Result<Seq<(Seq<u8>, Seq<u8>)>, FormatError> {
    if b.len() < 8 || b.subrange(0, 8) != signature() {
        Err(FormatError::BadSignature)
    } else {
        chunks_reading(b.subrange(8, b.len() as int))
    }
}

/// Chunk `i` is the first whose type reads as `s`.
pub open spec fn is_first_of_type(cs: Seq<(Seq<u8>, Seq<u8>)>, s: Seq<char>, i: int) -> bool {
    &&& 0 <= i < cs.len()
    &&& text_of(cs[i].0) == s
    &&& forall|j: int| 0 <= j < i ==> text_of(#[trigger] cs[j].0) != s
}

/// No chunk's type reads as `s`.
pub open spec fn lacks_type(cs: Seq<(Seq<u8>, Seq<u8>)>, s: Seq<char>) -> bool {
    forall|j: int| 0 <= j < cs.len() ==> text_of(#[trigger] cs[j].0) != s
}

pub open spec fn views_of(cs: Seq<Chunk>) -> Seq<(Seq<u8>, Seq<u8>)> {
    cs.map_values(|c: Chunk| c@)
}

/// A PNG file as the ordered sequence of its chunks.
#[derive(Debug)]
pub struct Png {
    chunks: Vec<Chunk>,
}

impl View for Png {
    type V = Seq<(Seq<u8>, Seq<u8>)>;

    closed spec fn view(&self) -> Seq<(Seq<u8>, Seq<u8>)> {
        views_of(self.chunks@)
    }
}

/// The PNG signature as bytes.
pub fn standard_header() -> (r: Vec<u8>)
    ensures
        r@ == signature(),
{
    let mut r: Vec<u8> = Vec::new();
    r.push(137u8);
    r.push(80u8);
    r.push(78u8);
    r.push(71u8);
    r.push(13u8);
    r.push(10u8);
    r.push(26u8);
    r.push(10u8);
    assert(r@ =~= signature());
    r
}

impl Png {
    #[verifier::type_invariant]
    pub closed spec fn inv(self) -> bool {
        all_chunks_ok(views_of(self.chunks@))
    }

    /// A file made of the given chunks, in order.
    pub fn from_chunks(chunks: Vec<Chunk>) -> (r: Png)
        ensures
            r@ == views_of(chunks@),
    {
        let mut png = Png { chunks: Vec::new() };
        assert(views_of(png.chunks@) =~= Seq::empty());
        let ghost all = chunks@;
        let ghost mut done: Seq<Chunk> = Seq::empty();
        for c in it: chunks
            invariant
                it.seq() == all,
                done == all.take(it.index() as int),
                png@ == views_of(done),
        {
            let ghost before = png@;
            png.append_chunk(c);
            proof {
                done = done.push(c);
            }
            assert(all.take(it.index() + 1) =~= all.take(it.index() as int).push(c));
            assert(views_of(done) =~= before.push(c@));
        }
        assert(done =~= all);
        png
    }

    /// Reads a whole file: the signature, then chunks until the bytes run out.
    pub fn parse(bytes: &[u8]) -> (r: Result<Png, FormatError>)
        ensures
            match png_reading(bytes@) {
                Ok(cs) => r matches Ok(p) && p@ == cs,
                Err(e) => r matches Err(f) && f == e,
            },
    {
        let len = bytes.len();
        let header = standard_header();
        if len < 8 {
            return Err(FormatError::BadSignature);
        }
        let mut k: usize = 0;
        while k < 8
            invariant
                k <= 8 <= len == bytes@.len(),
                header@ == signature(),
                forall|j: int| 0 <= j < k ==> bytes@[j] == #[trigger] signature()[j],
            decreases 8 - k,
        {
            if bytes[k] != header[k] {
                assert(bytes@.subrange(0, 8)[k as int] != signature()[k as int]);
                return Err(FormatError::BadSignature);
            }
            k += 1;
        }
        assert(bytes@.subrange(0, 8) =~= signature());
        let ghost all = bytes@.subrange(8, len as int);
        assert(png_reading(bytes@) == chunks_reading(all));
        let mut chunks: Vec<Chunk> = Vec::new();
        let mut pos: usize = 8;
        while pos < len
            invariant
                8 <= pos <= len == bytes@.len(),
                all == bytes@.subrange(8, len as int),
                png_reading(bytes@) == chunks_reading(all),
                chunks_reading(all) == prepend(
                    views_of(chunks@),
                    chunks_reading(bytes@.subrange(pos as int, len as int)),
                ),
            decreases len - pos,
        {
            let ghost sub = bytes@.subrange(pos as int, len as int);
            let rest = len - pos;
            assert(sub.len() == rest && rest > 0);
            if rest < 12 {
                assert(chunks_reading(sub) == Err::<Seq<(Seq<u8>, Seq<u8>)>, FormatError>(
                    FormatError::TooShort,
                ));
                return Err(FormatError::TooShort);
            }
            let n = ((bytes[pos] as u32) << 24u32) | ((bytes[pos + 1] as u32) << 16u32) | ((
            bytes[pos + 2] as u32) << 8u32) | (bytes[pos + 3] as u32);
            assert(n == be32_value(sub));
            if rest - 12 < n as usize {
                assert(chunks_reading(sub) == Err::<Seq<(Seq<u8>, Seq<u8>)>, FormatError>(
                    FormatError::TooShort,
                ));
                return Err(FormatError::TooShort);
            }
            let end = pos + 12 + n as usize;
            let piece = slice_subrange(bytes, pos, end);
            assert(piece@ =~= sub.subrange(0, n + 12));
            assert(bytes@.subrange(end as int, len as int) =~= sub.subrange(n + 12, sub.len() as int));
            match Chunk::parse(piece) {
                Err(e) => {
                    return Err(e);
                },
                Ok(c) => {
                    let ghost before = views_of(chunks@);
                    chunks.push(c);
                    proof {
                        assert(views_of(chunks@) =~= before.push(c@));
                        let r = chunks_reading(bytes@.subrange(end as int, len as int));
                        match r {
                            Ok(s) => {
                                assert(before + (seq![c@] + s) =~= before.push(c@) + s);
                            },
                            Err(_) => {},
                        }
                    }
                },
            }
            pos = end;
        }
        assert(bytes@.subrange(pos as int, len as int) =~= Seq::<u8>::empty());
        assert(views_of(chunks@) + Seq::empty() =~= views_of(chunks@));
        proof {
            lemma_read_chunks_ok(all);
        }
        Ok(Png { chunks })
    }

    /// Moves the chunks out, leaving the file empty.
    fn take_chunks(&mut self) -> (r: Vec<Chunk>)
        ensures
            views_of(r@) == old(self)@,
            all_chunks_ok(old(self)@),
            final(self)@ == Seq::<(Seq<u8>, Seq<u8>)>::empty(),
    {
        proof {
            use_type_invariant(&*self);
        }
        let mut taken = Png { chunks: Vec::new() };
        assert(views_of(taken.chunks@) =~= Seq::empty());
        std::mem::swap(self, &mut taken);
        taken.chunks
    }

    /// Adds a chunk at the end.
    pub fn append_chunk(&mut self, chunk: Chunk)
        ensures
            final(self)@ == old(self)@.push(chunk@),
    {
        proof {
            use_type_invariant(&chunk);
            lemma_chunk_ok(chunk);
        }
        let mut chunks = self.take_chunks();
        chunks.push(chunk);
        assert(views_of(chunks@) =~= old(self)@.push(chunk@));
        *self = Png { chunks };
    }

    /// The position of the first chunk whose type reads as `chunk_type`.
    fn find_type(&self, chunk_type: &str) -> (r: Option<usize>)
        ensures
            r is None <==> lacks_type(self@, chunk_type@),
            r matches Some(i) ==> is_first_of_type(self@, chunk_type@, i as int),
            !is_type_text(chunk_type@) ==> r is None,
    {
        proof {
            use_type_invariant(self);
        }
        let target = chunk_type.to_owned();
        let mut i: usize = 0;
        while i < self.chunks.len()
            invariant
                i <= self.chunks@.len(),
                target@ == chunk_type@,
                all_chunks_ok(self@),
                forall|j: int| 0 <= j < i ==> text_of(#[trigger] self@[j].0) != chunk_type@,
            decreases self.chunks@.len() - i,
        {
            let name = self.chunks[i].chunk_type().to_string();
            assert(self@[i as int] == self.chunks@[i as int]@);
            if name == target {
                assert(self@[i as int] == self.chunks@[i as int]@);
                proof {
                    assert(chunk_ok(self@[i as int]));
                    lemma_type_text(self@[i as int].0);
                }
                return Some(i);
            }
            i += 1;
        }
        None
    }

    /// The first chunk whose type reads as `chunk_type`, if any.
    pub fn chunk_by_type(&self, chunk_type: &str) -> (r: Option<&Chunk>)
        ensures
            r is None <==> lacks_type(self@, chunk_type@),
            r matches Some(c) ==> exists|i: int|
                is_first_of_type(self@, chunk_type@, i) && c@ == #[trigger] self@[i],
            !is_type_text(chunk_type@) ==> r is None,
    {
        match self.find_type(chunk_type) {
            Some(i) => Some(&self.chunks[i]),
            None => None,
        }
    }

    /// Takes out the first chunk whose type reads as `chunk_type` and returns
    /// it; the others keep their order. Fails, changing nothing, when there is
    /// none.
    pub fn remove_chunk(&mut self, chunk_type: &str) -> (r: Result<Chunk, NotFoundError>)
        ensures
            r is Err <==> lacks_type(old(self)@, chunk_type@),
            r is Err ==> final(self)@ == old(self)@,
            !is_type_text(chunk_type@) ==> r is Err,
            r matches Ok(c) ==> exists|i: int|
                is_first_of_type(old(self)@, chunk_type@, i) && c@ == #[trigger] old(self)@[i]
                    && final(self)@ == old(self)@.remove(i),
    {
        match self.find_type(chunk_type) {
            Some(i) => {
                let mut chunks = self.take_chunks();
                let c = chunks.remove(i);
                assert(views_of(chunks@) =~= old(self)@.remove(i as int));
                assert forall|j: int| 0 <= j < chunks@.len() implies chunk_ok(
                    #[trigger] views_of(chunks@)[j],
                ) by {
                    if j >= i {
                        assert(views_of(chunks@)[j] == old(self)@[j + 1]);
                    } else {
                        assert(views_of(chunks@)[j] == old(self)@[j]);
                    }
                }
                *self = Png { chunks };
                Ok(c)
            },
            None => Err(NotFoundError),
        }
    }

    /// The chunks, in order.
    pub fn chunks(&self) -> (r: &[Chunk])
        ensures
            views_of(r@) == self@,
    {
        self.chunks.as_slice()
    }

    /// The whole file as bytes: the signature, then each chunk in order.
    pub fn as_bytes(&self) -> (r: Vec<u8>)
        ensures
            r@ == png_encoding(self@),
    {
        let mut out = standard_header();
        let mut i: usize = 0;
        while i < self.chunks.len()
            invariant
                i <= self.chunks@.len(),
                out@ == signature() + chunks_encoding(self@.take(i as int)),
            decreases self.chunks@.len() - i,
        {
            let bytes = self.chunks[i].as_bytes();
            proof {
                lemma_encoding_push(self@.take(i as int), self@[i as int]);
                assert(self@.take(i as int).push(self@[i as int]) =~= self@.take(i + 1));
            }
            out.extend_from_slice(bytes.as_slice());
            i += 1;
        }
        assert(self@.take(i as int) =~= self@);
        out
    }
}

/// The bytes of two runs of chunks are the bytes of each, one after the other.
pub proof fn lemma_encoding_concat(a: Seq<(Seq<u8>, Seq<u8>)>, b: Seq<(Seq<u8>, Seq<u8>)>)
    ensures
        chunks_encoding(a + b) == chunks_encoding(a) + chunks_encoding(b),
    decreases a.len(),
{
    if a.len() == 0 {
        assert(a + b =~= b);
        assert(Seq::<u8>::empty() + chunks_encoding(b) =~= chunks_encoding(b));
    } else {
        assert((a + b).drop_first() =~= a.drop_first() + b);
        lemma_encoding_concat(a.drop_first(), b);
        assert(chunks_encoding(a + b) =~= chunks_encoding(a) + chunks_encoding(b));
    }
}

/// Every chunk that a successful reading yields can stand in a file.
pub proof fn lemma_read_chunks_ok(b: Seq<u8>)
    requires
        chunks_reading(b) is Ok,
    ensures
        forall|i: int|
            0 <= i < chunks_reading(b)->Ok_0.len() ==> chunk_ok(#[trigger] chunks_reading(b)->Ok_0[i]),
    decreases b.len(),
{
    if b.len() > 0 {
        let n = be32_value(b) as int + 12;
        let piece = b.subrange(0, n);
        let rest = b.subrange(n, b.len() as int);
        let c = chunk_reading(piece)->Ok_0;
        assert(piece.subrange(8, piece.len() - 4).len() == n - 12);
        assert(chunk_ok(c));
        lemma_read_chunks_ok(rest);
        let s = chunks_reading(rest)->Ok_0;
        assert(chunks_reading(b)->Ok_0 == seq![c] + s);
        assert forall|i: int| 0 <= i < chunks_reading(b)->Ok_0.len() implies chunk_ok(
            #[trigger] chunks_reading(b)->Ok_0[i],
        ) by {
            if i > 0 {
                assert(chunks_reading(b)->Ok_0[i] == s[i - 1]);
            }
        }
    }
}

/// Reading the bytes of chunks that can stand in a file gives those chunks.
pub proof fn lemma_chunks_round_trip(cs: Seq<(Seq<u8>, Seq<u8>)>)
    requires
        forall|i: int| 0 <= i < cs.len() ==> chunk_ok(#[trigger] cs[i]),
    ensures
        chunks_reading(chunks_encoding(cs)) == Ok::<Seq<(Seq<u8>, Seq<u8>)>, FormatError>(cs),
    decreases cs.len(),
{
    let e = chunks_encoding(cs);
    if cs.len() == 0 {
        assert(e.len() == 0);
        assert(cs =~= Seq::<(Seq<u8>, Seq<u8>)>::empty());
    } else {
        let c = cs[0];
        assert(chunk_ok(c));
        let rest = cs.drop_first();
        assert forall|i: int| 0 <= i < rest.len() implies chunk_ok(#[trigger] rest[i]) by {
            assert(rest[i] == cs[i + 1]);
        }
        lemma_chunks_round_trip(rest);
        assert(e == encoding_of(c.0, c.1) + chunks_encoding(rest));
        lemma_reading_cons(c, chunks_encoding(rest), rest);
        assert(seq![c] + rest =~= cs);
    }
}

/// Reading a chunk's bytes followed by bytes that read as `rest` gives the
/// chunk followed by `rest`.
proof fn lemma_reading_cons(
    c: (Seq<u8>, Seq<u8>),
    tail: Seq<u8>,
    rest: Seq<(Seq<u8>, Seq<u8>)>,
)
    requires
        chunk_ok(c),
        chunks_reading(tail) == Ok::<Seq<(Seq<u8>, Seq<u8>)>, FormatError>(rest),
    ensures
        chunks_reading(encoding_of(c.0, c.1) + tail) == Ok::<Seq<(Seq<u8>, Seq<u8>)>, FormatError>(
            seq![c] + rest,
        ),
{
    let e = encoding_of(c.0, c.1) + tail;
    lemma_encoding_head(c.0, c.1, tail);
    lemma_round_trip(c.0, c.1);
    assert(be32_value(e) as int + 12 == c.1.len() + 12);
    lemma_reading_step(e, c, rest);
}

proof fn lemma_reading_step(e: Seq<u8>, c: (Seq<u8>, Seq<u8>), rest: Seq<(Seq<u8>, Seq<u8>)>)
    requires
        e.len() >= 12,
        e.len() >= be32_value(e) as int + 12,
        chunk_reading(e.subrange(0, be32_value(e) as int + 12)) == Ok::<
            (Seq<u8>, Seq<u8>),
            FormatError,
        >(c),
        chunks_reading(e.subrange(be32_value(e) as int + 12, e.len() as int)) == Ok::<
            Seq<(Seq<u8>, Seq<u8>)>,
            FormatError,
        >(rest),
    ensures
        chunks_reading(e) == Ok::<Seq<(Seq<u8>, Seq<u8>)>, FormatError>(seq![c] + rest),
{
}

/// The bytes of a chunk followed by any others: the length field gives where
/// the chunk ends.
proof fn lemma_encoding_head(t: Seq<u8>, d: Seq<u8>, rest: Seq<u8>)
    requires
        t.len() == 4,
        d.len() <= u32::MAX,
    ensures
        be32_value(encoding_of(t, d) + rest) == d.len(),
        (encoding_of(t, d) + rest).subrange(0, d.len() + 12int) == encoding_of(t, d),
        (encoding_of(t, d) + rest).subrange(d.len() + 12int, (encoding_of(t, d) + rest).len() as int)
            == rest,
        (encoding_of(t, d) + rest).len() == d.len() + 12 + rest.len(),
{
    let first = encoding_of(t, d);
    let e = first + rest;
    let n = d.len() + 12int;
    assert(first.len() == n);
    assert(e.subrange(0, 4) =~= crate::chunk::be32(d.len() as u32));
    lemma_be32_value(d.len() as u32);
    assert(e[0] == e.subrange(0, 4)[0] && e[1] == e.subrange(0, 4)[1] && e[2] == e.subrange(0, 4)[2]
        && e[3] == e.subrange(0, 4)[3]);
    assert(e.subrange(0, n) =~= first);
    assert(e.subrange(n, e.len() as int) =~= rest);
}

/// Reading back a file after a chunk was appended to it gives the chunks
/// that were first read, in their order, followed by the new one.
pub proof fn lemma_append_round_trip(
    b: Seq<u8>,
    cs: Seq<(Seq<u8>, Seq<u8>)>,
    c: (Seq<u8>, Seq<u8>),
)
    requires
        png_reading(b) == Ok::<Seq<(Seq<u8>, Seq<u8>)>, FormatError>(cs),
        chunk_ok(c),
    ensures
        png_reading(png_encoding(cs.push(c))) == Ok::<Seq<(Seq<u8>, Seq<u8>)>, FormatError>(
            cs.push(c),
        ),
{
    lemma_read_chunks_ok(b.subrange(8, b.len() as int));
    let all = cs.push(c);
    assert forall|i: int| 0 <= i < all.len() implies chunk_ok(#[trigger] all[i]) by {
        if i < cs.len() {
            assert(all[i] == cs[i]);
            assert(chunks_reading(b.subrange(8, b.len() as int))->Ok_0[i] == cs[i]);
        }
    }
    lemma_chunks_round_trip(all);
    let e = png_encoding(all);
    assert(e.subrange(0, 8) =~= signature());
    assert(e.subrange(8, e.len() as int) =~= chunks_encoding(all));
}

/// Taking chunk `i` out of a file takes exactly that chunk's bytes out of
/// what is written; the bytes before and after it stay as they were.
pub proof fn lemma_remove_cuts_its_bytes(cs: Seq<(Seq<u8>, Seq<u8>)>, i: int)
    requires
        0 <= i < cs.len(),
    ensures
        png_encoding(cs) == png_encoding(cs.take(i)) + encoding_of(cs[i].0, cs[i].1)
            + chunks_encoding(cs.skip(i + 1)),
        png_encoding(cs.remove(i)) == png_encoding(cs.take(i)) + chunks_encoding(cs.skip(i + 1)),
{
    let pre = cs.take(i);
    let post = cs.skip(i + 1);
    assert(cs =~= pre + (seq![cs[i]] + post));
    assert(cs.remove(i) =~= pre + post);
    lemma_encoding_concat(pre, seq![cs[i]] + post);
    lemma_encoding_concat(seq![cs[i]], post);
    lemma_encoding_push(Seq::empty(), cs[i]);
    assert(Seq::<(Seq<u8>, Seq<u8>)>::empty().push(cs[i]) =~= seq![cs[i]]);
    assert(chunks_encoding(Seq::<(Seq<u8>, Seq<u8>)>::empty()) == Seq::<u8>::empty());
    lemma_encoding_concat(pre, post);
    assert(png_encoding(cs) =~= png_encoding(pre) + encoding_of(cs[i].0, cs[i].1) + chunks_encoding(post));
    assert(png_encoding(cs.remove(i)) =~= png_encoding(pre) + chunks_encoding(post));
}

proof fn lemma_encoding_push(a: Seq<(Seq<u8>, Seq<u8>)>, c: (Seq<u8>, Seq<u8>))
    ensures
        chunks_encoding(a.push(c)) == chunks_encoding(a) + encoding_of(c.0, c.1),
{
    lemma_encoding_concat(a, seq![c]);
    assert(a + seq![c] =~= a.push(c));
    assert(seq![c].drop_first() =~= Seq::<(Seq<u8>, Seq<u8>)>::empty());
    assert(chunks_encoding(Seq::<(Seq<u8>, Seq<u8>)>::empty()) == Seq::<u8>::empty());
    assert(chunks_encoding(seq![c]) =~= encoding_of(c.0, c.1));
}

} // verus!
