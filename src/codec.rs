//! Length-prefixed frames: a four-byte big-endian length followed by that
//! many bytes of UTF-8 text.

use vstd::prelude::*;
use vstd::utf8::{decode_utf8, encode_utf8, encode_utf8_decode_utf8, encode_utf8_valid_utf8, valid_utf8};

use crate::wire::{be_bytes, be_value, combine_u8s_into_u32, lemma_be_value_of_bytes, split_u32_into_u8s};

verus! {

/// Why a complete frame did not yield a message.
#[derive(Debug, Clone, Copy, PartialEq, Eq)]
pub enum DecodeError {
    /// The payload is not well-formed UTF-8. The frame is dropped; the stream
    /// stays usable.
    MalformedUtf8,
}

/// A decoded frame as a value: the text, or the reason it was dropped.
pub type Decoded = Result<Seq<char>, DecodeError>;

/// Whether the UTF-8 encoding of `text` fits under a 32-bit length prefix.
pub open spec fn encodable(text: Seq<char>) -> bool {
    encode_utf8(text).len() <= u32::MAX
}

/// The frame that carries `text`.
pub open spec fn frame_of(text: Seq<char>) -> Seq<u8> {
    be_bytes(encode_utf8(text).len() as u32) + encode_utf8(text)
}

/// The payload length that the first four bytes of `buf` declare.
pub open spec fn declared_len(buf: Seq<u8>) -> nat {
    be_value(buf.subrange(0, 4))
}

/// Whether `buf` starts with a whole frame.
pub open spec fn frame_ready(buf: Seq<u8>) -> bool {
    buf.len() >= 4 && buf.len() >= 4 + declared_len(buf)
}

/// The length of the frame at the start of `buf`, prefix included.
pub open spec fn frame_len(buf: Seq<u8>) -> nat {
    4 + declared_len(buf)
}

/// The payload of the frame at the start of `buf`.
pub open spec fn payload(buf: Seq<u8>) -> Seq<u8> {
    buf.subrange(4, frame_len(buf) as int)
}

/// What a payload decodes to.
pub open spec fn decoded(p: Seq<u8>) -> Decoded {
    if valid_utf8(p) {
        Ok(decode_utf8(p))
    } else {
        Err(DecodeError::MalformedUtf8)
    }
}

/// Splits `buf` into the results of its leading whole frames, in order, and
/// the bytes left after them.
pub open spec fn drain(buf: Seq<u8>) -> (Seq<Decoded>, Seq<u8>)
    decreases buf.len(),
{
    if frame_ready(buf) {
        let next = drain(buf.subrange(frame_len(buf) as int, buf.len() as int));
        (seq![decoded(payload(buf))] + next.0, next.1)
    } else {
        (Seq::empty(), buf)
    }
}

/// Feeds `chunks` one after the other to a decoder that holds `pending`,
/// draining whole frames after each: all results, and the bytes left.
pub open spec fn feed_all(pending: Seq<u8>, chunks: Seq<Seq<u8>>) -> (Seq<Decoded>, Seq<u8>)
    decreases chunks.len(),
{
    if chunks.len() == 0 {
        (Seq::empty(), pending)
    } else {
        let first = drain(pending + chunks[0]);
        let others = feed_all(first.1, chunks.drop_first());
        (first.0 + others.0, others.1)
    }
}

/// A decoded message as a value.
pub open spec fn message_view(m: Result<String, DecodeError>) -> Decoded {
    match m {
        Ok(s) => Ok(s@),
        Err(e) => Err(e),
    }
}

/// Relies on String::from_utf8: it accepts exactly the well-formed UTF-8 byte
/// sequences, and the string it builds holds the characters they encode.
#[verifier::external_body]
fn string_from_utf8(bytes: Vec<u8>) -> (r: Option<String>)
    ensures
        match r {
            Some(s) => valid_utf8(bytes@) && s@ == decode_utf8(bytes@),
            None => !valid_utf8(bytes@),
        },
{
    String::from_utf8(bytes).ok()
}

/// The frame that carries `text`.
pub fn encode(text: &str) -> (r: Vec<u8>)
    requires
        encodable(text@),
    ensures
        r@ == frame_of(text@),
{
    let n = text.len();
    let prefix = split_u32_into_u8s(n as u32);
    let bytes = text.as_bytes();
    let mut out: Vec<u8> = Vec::new();
    out.push(prefix[0]);
    out.push(prefix[1]);
    out.push(prefix[2]);
    out.push(prefix[3]);
    assert(out@ =~= be_bytes(n as u32));
    let mut i: usize = 0;
    while i < bytes.len()
        invariant
            0 <= i <= bytes@.len(),
            out@ =~= be_bytes(n as u32) + bytes@.subrange(0, i as int),
        decreases bytes@.len() - i,
    {
        out.push(bytes[i]);
        i = i + 1;
    }
    assert(bytes@.subrange(0, i as int) =~= bytes@);
    out
}

/// The result of the frame that starts at `start` in `buf`, and where that
/// frame ends; `None` while the frame is incomplete.
fn frame_at(buf: &Vec<u8>, start: usize) -> (r: Option<(Result<String, DecodeError>, usize)>)
    requires
        start <= buf@.len(),
    ensures
        ({
            let rest = buf@.subrange(start as int, buf@.len() as int);
            match r {
                None => !frame_ready(rest),
                Some((m, end)) => frame_ready(rest) && end == start + frame_len(rest)
                    && message_view(m) == decoded(payload(rest)),
            }
        }),
{
    let ghost rest = buf@.subrange(start as int, buf@.len() as int);
    let avail = buf.len() - start;
    if avail < 4 {
        return None;
    }
    let header = [buf[start], buf[start + 1], buf[start + 2], buf[start + 3]];
    assert(header@ =~= rest.subrange(0, 4));
    let declared = combine_u8s_into_u32(header);
    if ((avail - 4) as u64) < (declared as u64) {
        return None;
    }
    let end = start + 4 + declared as usize;
    let mut bytes: Vec<u8> = Vec::new();
    let mut i: usize = start + 4;
    while i < end
        invariant
            start + 4 <= i <= end <= buf@.len(),
            bytes@ =~= buf@.subrange(start + 4, i as int),
        decreases end - i,
    {
        bytes.push(buf[i]);
        i = i + 1;
    }
    assert(bytes@ =~= payload(rest));
    let m = match string_from_utf8(bytes) {
        Some(s) => Ok(s),
        None => Err(DecodeError::MalformedUtf8),
    };
    Some((m, end))
}

/// Reassembles frames from a byte stream that arrives in pieces of any size.
pub struct FrameDecoder {
    pending: Vec<u8>,
}

impl View for FrameDecoder {
    type V = Seq<u8>;

    /// The bytes received and not yet consumed by a whole frame.
    closed spec fn view(&self) -> Seq<u8> {
        self.pending@
    }
}

impl FrameDecoder {
    /// A decoder that holds nothing.
    pub fn new() -> (r: FrameDecoder)
        ensures
            r@ == Seq::<u8>::empty(),
            !frame_ready(r@),
    {
        FrameDecoder { pending: Vec::new() }
    }

    /// Takes the next piece of the stream and hands out, in order, the result
    /// of every frame that is now whole; the rest is kept for later pieces.
    pub fn feed(&mut self, chunk: &[u8]) -> (r: Vec<Result<String, DecodeError>>)
        ensures
            r@.map_values(|m: Result<String, DecodeError>| message_view(m)) == drain(
                old(self)@ + chunk@,
            ).0,
            final(self)@ == drain(old(self)@ + chunk@).1,
            !frame_ready(final(self)@),
    {
        let ghost whole = self.pending@ + chunk@;
        let mut j: usize = 0;
        while j < chunk.len()
            invariant
                0 <= j <= chunk@.len(),
                whole == old(self)@ + chunk@,
                self.pending@ =~= old(self)@ + chunk@.subrange(0, j as int),
            decreases chunk@.len() - j,
        {
            self.pending.push(chunk[j]);
            j = j + 1;
        }
        assert(chunk@.subrange(0, j as int) =~= chunk@);
        assert(self.pending@ == whole);
        let mut out: Vec<Result<String, DecodeError>> = Vec::new();
        let mut pos: usize = 0;
        assert(whole.subrange(0, whole.len() as int) =~= whole);
        assert(out@.map_values(|m: Result<String, DecodeError>| message_view(m)) + drain(whole).0
            =~= drain(whole).0);
        loop
            invariant
                self.pending@ == whole,
                pos <= whole.len(),
                drain(whole).0 == out@.map_values(|m: Result<String, DecodeError>| message_view(m))
                    + drain(whole.subrange(pos as int, whole.len() as int)).0,
                drain(whole).1 == drain(whole.subrange(pos as int, whole.len() as int)).1,
            ensures
                self.pending@ == whole,
                pos <= whole.len(),
                drain(whole).0 == out@.map_values(|m: Result<String, DecodeError>| message_view(m)),
                drain(whole).1 == whole.subrange(pos as int, whole.len() as int),
            decreases whole.len() - pos,
        {
            let ghost rest = whole.subrange(pos as int, whole.len() as int);
            match frame_at(&self.pending, pos) {
                None => {
                    assert(drain(rest).0 + Seq::<Decoded>::empty() =~= drain(rest).0);
                    assert(out@.map_values(|m: Result<String, DecodeError>| message_view(m))
                        + Seq::<Decoded>::empty() =~= out@.map_values(
                        |m: Result<String, DecodeError>| message_view(m),
                    ));
                    break;
                },
                Some((m, end)) => {
                    let ghost old_out = out@;
                    assert(whole.subrange(end as int, whole.len() as int) =~= rest.subrange(
                        frame_len(rest) as int,
                        rest.len() as int,
                    ));
                    out.push(m);
                    assert(out@.map_values(|m: Result<String, DecodeError>| message_view(m))
                        =~= old_out.map_values(|m: Result<String, DecodeError>| message_view(m))
                        + seq![message_view(m)]);
                    pos = end;
                },
            }
        }
        let left = self.pending.split_off(pos);
        self.pending = left;
        proof {
            lemma_drain_leaves_partial(whole);
        }
        out
    }
}

/// What draining leaves never holds a whole frame.
pub proof fn lemma_drain_leaves_partial(buf: Seq<u8>)
    ensures
        !frame_ready(drain(buf).1),
    decreases buf.len(),
{
    if frame_ready(buf) {
        lemma_drain_leaves_partial(buf.subrange(frame_len(buf) as int, buf.len() as int));
    }
}

/// Draining a buffer that grows at its end gives first what the buffer gave,
/// then what its remainder gives once the new bytes are behind it.
pub proof fn lemma_drain_append(a: Seq<u8>, b: Seq<u8>)
    ensures
        drain(a + b) == (drain(a).0 + drain(drain(a).1 + b).0, drain(drain(a).1 + b).1),
    decreases a.len(),
{
    if frame_ready(a) {
        let ab = a + b;
        assert(ab.subrange(0, 4) =~= a.subrange(0, 4));
        assert(payload(ab) =~= payload(a));
        let a2 = a.subrange(frame_len(a) as int, a.len() as int);
        assert(ab.subrange(frame_len(ab) as int, ab.len() as int) =~= a2 + b);
        lemma_drain_append(a2, b);
        assert(drain(a + b).0 =~= drain(a).0 + drain(drain(a).1 + b).0);
    } else {
        assert(drain(a).0 + drain(a + b).0 =~= drain(a + b).0);
    }
}

/// A frame decodes back to the text it was made from, whatever follows it.
pub proof fn lemma_frame_round_trip(text: Seq<char>, rest: Seq<u8>)
    requires
        encodable(text),
    ensures
        frame_ready(frame_of(text) + rest),
        frame_len(frame_of(text) + rest) == frame_of(text).len(),
        decoded(payload(frame_of(text) + rest)) == Ok::<Seq<char>, DecodeError>(text),
        (frame_of(text) + rest).subrange(frame_of(text).len() as int, (frame_of(text) + rest).len() as int) == rest,
{
    let body = encode_utf8(text);
    let buf = frame_of(text) + rest;
    lemma_be_value_of_bytes(body.len() as u32);
    assert(buf.subrange(0, 4) =~= be_bytes(body.len() as u32));
    assert(payload(buf) =~= body);
    encode_utf8_valid_utf8(text);
    encode_utf8_decode_utf8(text);
    assert(buf.subrange(frame_of(text).len() as int, buf.len() as int) =~= rest);
}

/// Decoding the frame of a text gives back exactly that text and leaves
/// nothing behind.
pub proof fn lemma_round_trip(text: Seq<char>)
    requires
        encodable(text),
    ensures
        drain(frame_of(text)) == (seq![Ok::<Seq<char>, DecodeError>(text)], Seq::<u8>::empty()),
{
    let buf = frame_of(text);
    lemma_frame_round_trip(text, Seq::empty());
    assert(buf + Seq::<u8>::empty() =~= buf);
    let after = buf.subrange(frame_len(buf) as int, buf.len() as int);
    assert(after =~= Seq::<u8>::empty());
    assert(!frame_ready(after));
    assert(drain(after) == (Seq::<Decoded>::empty(), after));
    assert(drain(buf).0 =~= seq![Ok::<Seq<char>, DecodeError>(text)]);
    assert(drain(buf).1 =~= Seq::<u8>::empty());
}

/// Feeding a stream piece by piece yields the same results, and leaves the
/// same bytes pending, as feeding it all at once (to a decoder that, as
/// every decoder does between pieces, holds no whole frame).
pub proof fn lemma_chunking_irrelevant(pending: Seq<u8>, chunks: Seq<Seq<u8>>)
    requires
        !frame_ready(pending),
    ensures
        feed_all(pending, chunks) == drain(pending + chunks.flatten()),
    decreases chunks.len(),
{
    if chunks.len() == 0 {
        assert(pending + chunks.flatten() =~= pending);
    } else {
        let first = drain(pending + chunks[0]);
        lemma_drain_leaves_partial(pending + chunks[0]);
        lemma_chunking_irrelevant(first.1, chunks.drop_first());
        lemma_drain_append(pending + chunks[0], chunks.drop_first().flatten());
        assert(chunks.flatten() == chunks[0] + chunks.drop_first().flatten());
        assert(pending + chunks[0] + chunks.drop_first().flatten() =~= pending + chunks.flatten());
        assert(feed_all(pending, chunks).0 =~= drain(pending + chunks.flatten()).0);
        assert(feed_all(pending, chunks).1 == drain(pending + chunks.flatten()).1);
    }
}

/// However the frame of a text is cut into pieces, a fresh decoder fed those
/// pieces yields exactly that text, once, and holds nothing afterwards.
pub proof fn lemma_chunked_round_trip(text: Seq<char>, chunks: Seq<Seq<u8>>)
    requires
        encodable(text),
        chunks.flatten() == frame_of(text),
    ensures
        feed_all(Seq::empty(), chunks) == (seq![Ok::<Seq<char>, DecodeError>(text)], Seq::<u8>::empty()),
{
    assert(!frame_ready(Seq::<u8>::empty()));
    lemma_chunking_irrelevant(Seq::empty(), chunks);
    assert(Seq::<u8>::empty() + chunks.flatten() =~= frame_of(text));
    lemma_round_trip(text);
}

} // verus!
