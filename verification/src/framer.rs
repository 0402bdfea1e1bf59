//! The chunk framer: it cuts the byte stream of one direction of a connection
//! into chunks. A chunk is a length of two bytes, the more significant byte
//! first, and as many bytes of ciphertext as the length says.

use bytes::Buf;
use vstd::prelude::*;

verus! {

/// Number of bytes in the length of a chunk.
pub const LENGTH_BYTES: usize = 2;

/// The length that the first two bytes of a stream announce.
pub open spec fn announced(stream: Seq<u8>) -> nat
    recommends
        stream.len() >= 2,
{
    (stream[0] as nat) * 256 + stream[1] as nat
}

/// Whether a stream starts with a whole chunk: its length and all the bytes that
/// the length announces.
pub open spec fn chunk_ready(stream: Seq<u8>) -> bool {
    stream.len() >= 2 && stream.len() >= 2 + announced(stream)
}

/// The number of bytes that the first chunk of a stream takes, its length included.
pub open spec fn chunk_span(stream: Seq<u8>) -> int {
    2 + announced(stream) as int
}

/// The contents of the whole chunks at the start of a stream, in their order.
pub open spec fn chunks_of(stream: Seq<u8>) -> Seq<Seq<u8>>
    decreases stream.len(),
{
    if chunk_ready(stream) {
        seq![stream.subrange(2, chunk_span(stream))] + chunks_of(stream.skip(chunk_span(stream)))
    } else {
        Seq::empty()
    }
}

/// What is left of a stream behind its whole chunks: the start of a chunk that
/// has not come in full.
pub open spec fn rest_of(stream: Seq<u8>) -> Seq<u8>
    decreases stream.len(),
{
    if chunk_ready(stream) {
        rest_of(stream.skip(chunk_span(stream)))
    } else {
        stream
    }
}

/// The chunks as byte strings.
pub open spec fn chunk_views(chunks: Seq<Vec<u8>>) -> Seq<Seq<u8>> {
    chunks.map_values(|chunk: Vec<u8>| chunk@)
}

/// What is left behind the whole chunks holds no whole chunk, and is no longer
/// than the stream.
pub proof fn lemma_rest_of(stream: Seq<u8>)
    ensures
        !chunk_ready(rest_of(stream)),
        rest_of(stream).len() <= stream.len(),
        chunks_of(rest_of(stream)) == Seq::<Seq<u8>>::empty(),
        rest_of(rest_of(stream)) == rest_of(stream),
    decreases stream.len(),
{
    if chunk_ready(stream) {
        lemma_rest_of(stream.skip(chunk_span(stream)));
    }
}

/// However a stream is split into two deliveries, the chunks come out as from one
/// delivery of the whole: the chunks of the first part, then the chunks of what the
/// first part left together with the second part. The same bytes are left over.
pub proof fn lemma_chunking_invariance(first: Seq<u8>, second: Seq<u8>)
    ensures
        chunks_of(first + second) == chunks_of(first) + chunks_of(rest_of(first) + second),
        rest_of(first + second) == rest_of(rest_of(first) + second),
    decreases first.len(),
{
    let whole = first + second;
    if chunk_ready(first) {
        let span = chunk_span(first);
        assert(whole[0] == first[0] && whole[1] == first[1]);
        assert(chunk_span(whole) == span);
        assert(whole.subrange(2, span) =~= first.subrange(2, span));
        assert(whole.skip(span) =~= first.skip(span) + second);
        lemma_chunking_invariance(first.skip(span), second);
        assert(seq![first.subrange(2, span)] + (chunks_of(first.skip(span)) + chunks_of(
            rest_of(first.skip(span)) + second,
        )) =~= (seq![first.subrange(2, span)] + chunks_of(first.skip(span))) + chunks_of(
            rest_of(first.skip(span)) + second,
        ));
    } else {
        assert(chunks_of(first) + chunks_of(whole) =~= chunks_of(whole));
    }
}

/// `Buf::get_u16` of the `bytes` crate on a byte string: the number that its
/// first two bytes stand for, the more significant byte first.
#[verifier::external_body]
fn get_u16(prefix: &[u8]) -> (length: u16)
    requires
        prefix@.len() >= 2,
    ensures
        length == announced(prefix@),
{
    let mut cursor: &[u8] = prefix;
    cursor.get_u16()
}

/// The framer of one direction of a connection.
#[derive(Debug)]
pub struct Framer {
    buffer: Vec<u8>,
}

impl View for Framer {
    type V = Seq<u8>;

    /// The bytes that have come in and belong to no whole chunk yet.
    closed spec fn view(&self) -> Seq<u8> {
        self.buffer@
    }
}

impl Framer {
    /// Whether the framer is in order: it holds no whole chunk.
    pub open spec fn wf(&self) -> bool {
        !chunk_ready(self@)
    }

    /// A framer that holds nothing.
    pub fn new() -> (framer: Framer)
        ensures
            framer.wf(),
            framer@ == Seq::<u8>::empty(),
    {
        Framer { buffer: Vec::new() }
    }

    /// The number of bytes that wait for the rest of their chunk.
    pub fn pending(&self) -> (n: usize)
        ensures
            n == self@.len(),
    {
        self.buffer.len()
    }

    /// Takes a delivery and hands out the contents of the chunks that it
    /// completes, in their order. What is left waits for the next delivery.
    pub fn feed(&mut self, data: &[u8]) -> (chunks: Vec<Vec<u8>>)
        ensures
            final(self).wf(),
            chunk_views(chunks@) == chunks_of(old(self)@ + data@),
            final(self)@ == rest_of(old(self)@ + data@),
    {
        self.buffer.extend_from_slice(data);
        let ghost stream = self.buffer@;
        let mut chunks: Vec<Vec<u8>> = Vec::new();
        let mut start: usize = 0;
        let mut more = true;
        proof {
            assert(stream.skip(0) =~= stream);
            assert(chunk_views(chunks@) + chunks_of(stream) =~= chunks_of(stream));
        }
        while more
            invariant
                stream == self.buffer@,
                stream == old(self)@ + data@,
                start <= stream.len(),
                chunk_views(chunks@) + chunks_of(stream.skip(start as int)) == chunks_of(stream),
                rest_of(stream.skip(start as int)) == rest_of(stream),
                !more ==> !chunk_ready(stream.skip(start as int)),
            decreases stream.len() - start + (if more { 1int } else { 0int }),
        {
            let left = self.buffer.len() - start;
            let ghost tail = stream.skip(start as int);
            if left < LENGTH_BYTES {
                more = false;
            } else {
                let length = get_u16(slice_of(&self.buffer, start, start + LENGTH_BYTES)) as usize;
                proof {
                    assert(stream.subrange(start as int, start + 2)[0] == tail[0]);
                    assert(stream.subrange(start as int, start + 2)[1] == tail[1]);
                    assert(length == announced(tail));
                }
                if left - LENGTH_BYTES < length {
                    more = false;
                } else {
                    let from = start + LENGTH_BYTES;
                    let chunk = copy_of(slice_of(&self.buffer, from, from + length));
                    let ghost before = chunk_views(chunks@);
                    proof {
                        assert(chunk_ready(tail));
                        assert(chunk@ =~= tail.subrange(2, chunk_span(tail)));
                        assert(tail.skip(chunk_span(tail)) =~= stream.skip(from + length));
                        assert(before.push(chunk@) + chunks_of(stream.skip(from + length))
                            =~= before + (seq![chunk@] + chunks_of(stream.skip(from + length))));
                    }
                    chunks.push(chunk);
                    proof {
                        assert(chunk_views(chunks@) =~= before.push(chunk@));
                    }
                    start = from + length;
                }
            }
        }
        let rest = self.buffer.split_off(start);
        self.buffer = rest;
        proof {
            let tail = stream.skip(start as int);
            assert(self.buffer@ =~= tail);
            assert(chunks_of(tail) =~= Seq::<Seq<u8>>::empty());
            assert(chunk_views(chunks@) + Seq::<Seq<u8>>::empty() =~= chunk_views(chunks@));
        }
        chunks
    }
}

/// The bytes of `buffer` from `from` up to `to`.
fn slice_of(buffer: &Vec<u8>, from: usize, to: usize) -> (part: &[u8])
    requires
        from <= to <= buffer@.len(),
    ensures
        part@ == buffer@.subrange(from as int, to as int),
{
    let whole = buffer.as_slice();
    &whole[from..to]
}

/// A byte string of its own with the bytes of `part`.
fn copy_of(part: &[u8]) -> (copy: Vec<u8>)
    ensures
        copy@ == part@,
{
    let mut copy: Vec<u8> = Vec::new();
    copy.extend_from_slice(part);
    copy
}

} // verus!
