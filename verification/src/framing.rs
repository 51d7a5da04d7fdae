//! Reading messages off datagrams and byte streams.
use crate::buffers::{buffer_content, buffer_extend, buffer_from, buffer_slice};
use crate::endian::{le_bytes, lemma_le_len, lemma_le_roundtrip, lemma_pow256, pow256};
use crate::wire::{
    front_len, number_at, parse_front, parse_payload, parse_whole, MessageView, OrbitMessage,
    ProtocolError, MAX_FRAME,
};
use bytes::BytesMut;
use vstd::prelude::*;
use vstd::utf8::{encode_utf8, encode_utf8_decode_utf8, encode_utf8_valid_utf8};

verus! {

/// Reads the message at the front of a datagram. `None` stands for a datagram
/// that ends before its frame does; bytes behind the frame are ignored.
pub fn parse_datagram(datagram: &[u8]) -> (msg: Result<Option<OrbitMessage>, ProtocolError>)
    ensures
        match msg {
            Ok(Some(m)) => parse_front(datagram@) == Ok::<Option<MessageView>, ProtocolError>(
                Some(m@),
            ),
            Ok(None) => parse_front(datagram@) == Ok::<Option<MessageView>, ProtocolError>(None),
            Err(e) => parse_front(datagram@) == Err::<Option<MessageView>, ProtocolError>(e),
        },
{
    let mut buf = buffer_from(datagram);
    OrbitMessage::parse_frame(&mut buf)
}

/// Reads complete messages from a byte stream that arrives in chunks.
pub struct FrameReader {
    buf: BytesMut,
}

impl FrameReader {
    /// The bytes that arrived and belong to no message yet.
    pub closed spec fn pending(&self) -> Seq<u8> {
        buffer_content(self.buf)
    }

    /// A reader to which nothing has arrived.
    pub fn new() -> (reader: Self)
        ensures
            reader.pending() == Seq::<u8>::empty(),
    {
        let none: Vec<u8> = Vec::new();
        FrameReader { buf: buffer_from(none.as_slice()) }
    }

    /// The number of bytes that arrived and belong to no message yet.
    pub fn pending_len(&self) -> (len: usize)
        ensures
            len == self.pending().len(),
    {
        buffer_slice(&self.buf).len()
    }

    /// Takes in the next chunk of the stream.
    pub fn push(&mut self, chunk: &[u8])
        requires
            old(self).pending().len() + chunk@.len() <= isize::MAX,
        ensures
            final(self).pending() == old(self).pending() + chunk@,
    {
        buffer_extend(&mut self.buf, chunk);
    }

    /// The next message, if all of it has arrived.
    pub fn next_message(&mut self) -> (msg: Result<Option<OrbitMessage>, ProtocolError>)
        ensures
            match msg {
                Ok(Some(m)) => parse_front(old(self).pending()) == Ok::<
                    Option<MessageView>,
                    ProtocolError,
                >(Some(m@)),
                Ok(None) => parse_front(old(self).pending()) == Ok::<
                    Option<MessageView>,
                    ProtocolError,
                >(None),
                Err(e) => parse_front(old(self).pending()) == Err::<
                    Option<MessageView>,
                    ProtocolError,
                >(e),
            },
            final(self).pending() == old(self).pending().skip(
                front_len(old(self).pending()) as int,
            ),
    {
        OrbitMessage::parse_frame(&mut self.buf)
    }
}

/// A number that is written in place is read back.
proof fn lemma_number_at(b: Seq<u8>, at: int, v: nat, n: nat)
    requires
        0 <= at,
        at + n <= b.len(),
        b.subrange(at, at + n) == le_bytes(v, n),
        v < pow256(n),
    ensures
        number_at(b, at, n as int) == v,
{
    lemma_le_roundtrip(v, n);
}

/// The lengths of the numbers in a message.
proof fn lemma_number_lengths(a: nat, b: nat, c: nat, d: nat, e: nat, f: nat)
    ensures
        le_bytes(a, 8).len() == 8,
        le_bytes(b, 8).len() == 8,
        le_bytes(c, 8).len() == 8,
        le_bytes(d, 4).len() == 4,
        le_bytes(e, 4).len() == 4,
        le_bytes(f, 2).len() == 2,
{
    lemma_le_len(a, 8);
    lemma_le_len(b, 8);
    lemma_le_len(c, 8);
    lemma_le_len(d, 4);
    lemma_le_len(e, 4);
    lemma_le_len(f, 2);
}

/// A payload is read back as the message it was written for.
proof fn lemma_payload_roundtrip(m: MessageView)
    requires
        m.fits(),
    ensures
        parse_payload(m.type_byte(), m.payload()) == Ok::<MessageView, ProtocolError>(m),
{
    lemma_pow256();
    let b = m.payload();
    match m {
        MessageView::Hello { session_id, role } => {
            lemma_number_lengths(session_id as nat, 0, 0, 0, 0, 0);
            assert(b.subrange(0, 8) =~= le_bytes(session_id as nat, 8));
            lemma_number_at(b, 0, session_id as nat, 8);
        },
        MessageView::Meta { session_id, filename, size, symbol_size, k, checksum } => {
            let text = encode_utf8(filename);
            let n = text.len() as int;
            lemma_number_lengths(
                session_id as nat,
                size as nat,
                checksum as nat,
                symbol_size as nat,
                k as nat,
                text.len(),
            );
            encode_utf8_valid_utf8(filename);
            encode_utf8_decode_utf8(filename);
            assert(b.subrange(0, 8) =~= le_bytes(session_id as nat, 8));
            lemma_number_at(b, 0, session_id as nat, 8);
            assert(b.subrange(8, 10) =~= le_bytes(text.len(), 2));
            lemma_number_at(b, 8, text.len(), 2);
            assert(b.subrange(10, 10 + n) =~= text);
            assert(b.subrange(10 + n, 18 + n) =~= le_bytes(size as nat, 8));
            lemma_number_at(b, 10 + n, size as nat, 8);
            assert(b.subrange(18 + n, 22 + n) =~= le_bytes(symbol_size as nat, 4));
            lemma_number_at(b, 18 + n, symbol_size as nat, 4);
            assert(b.subrange(22 + n, 26 + n) =~= le_bytes(k as nat, 4));
            lemma_number_at(b, 22 + n, k as nat, 4);
            assert(b.subrange(26 + n, 34 + n) =~= le_bytes(checksum as nat, 8));
            lemma_number_at(b, 26 + n, checksum as nat, 8);
        },
        MessageView::Symbol { session_id, esi, data } => {
            lemma_number_lengths(session_id as nat, 0, 0, esi as nat, 0, 0);
            assert(b.subrange(0, 8) =~= le_bytes(session_id as nat, 8));
            lemma_number_at(b, 0, session_id as nat, 8);
            assert(b.subrange(8, 12) =~= le_bytes(esi as nat, 4));
            lemma_number_at(b, 8, esi as nat, 4);
            assert(b.skip(12) =~= data);
        },
        MessageView::Done { session_id } => {
            lemma_number_lengths(session_id as nat, 0, 0, 0, 0, 0);
            assert(b.subrange(0, 8) =~= le_bytes(session_id as nat, 8));
            lemma_number_at(b, 0, session_id as nat, 8);
        },
        MessageView::Ready { session_id } => {
            lemma_number_lengths(session_id as nat, 0, 0, 0, 0, 0);
            assert(b.subrange(0, 8) =~= le_bytes(session_id as nat, 8));
            lemma_number_at(b, 0, session_id as nat, 8);
        },
        MessageView::Direct { session_id, addr } => {
            let text = encode_utf8(addr);
            let n = text.len() as int;
            lemma_number_lengths(session_id as nat, 0, 0, 0, 0, text.len());
            encode_utf8_valid_utf8(addr);
            encode_utf8_decode_utf8(addr);
            assert(b.subrange(0, 8) =~= le_bytes(session_id as nat, 8));
            lemma_number_at(b, 0, session_id as nat, 8);
            assert(b.subrange(8, 10) =~= le_bytes(text.len(), 2));
            lemma_number_at(b, 8, text.len(), 2);
            assert(b.subrange(10, 10 + n) =~= text);
        },
    }
}

/// The parts of a frame: its length, and the length it announces.
proof fn lemma_frame_shape(m: MessageView)
    requires
        m.fits(),
    ensures
        m.frame().len() == 5 + m.payload().len(),
        number_at(m.frame(), 1, 4) == m.payload().len(),
        m.frame()[0] == m.type_byte(),
        m.frame().skip(5) == m.payload(),
{
    lemma_le_len(m.payload().len(), 4);
    assert(m.frame().subrange(1, 5) =~= le_bytes(m.payload().len(), 4));
    lemma_number_at(m.frame(), 1, m.payload().len(), 4);
    assert(m.frame().skip(5) =~= m.payload());
}

/// A decoded frame says what the encoded message said, as long as a name has
/// less than 2^16 bytes and the payload less than 2^32.
pub proof fn law_decode_inverts_encode(m: MessageView)
    requires
        m.fits(),
    ensures
        parse_whole(m.frame()) == Ok::<MessageView, ProtocolError>(m),
{
    lemma_frame_shape(m);
    lemma_payload_roundtrip(m);
}

/// A frame at the front of a buffer is read as its message and taken off; what
/// follows stays.
pub proof fn law_front_frame_is_taken(m: MessageView, rest: Seq<u8>)
    requires
        m.fits(),
        m.payload().len() <= MAX_FRAME,
    ensures
        parse_front(m.frame() + rest) == Ok::<Option<MessageView>, ProtocolError>(Some(m)),
        (m.frame() + rest).skip(front_len(m.frame() + rest) as int) == rest,
{
    let buf = m.frame() + rest;
    lemma_frame_shape(m);
    law_decode_inverts_encode(m);
    assert(buf.subrange(1, 5) =~= m.frame().subrange(1, 5));
    assert(buf.take((5 + m.payload().len()) as int) =~= m.frame());
    assert(buf.skip((5 + m.payload().len()) as int) =~= rest);
}

/// A frame of which the end is missing is left alone.
pub proof fn law_partial_frame_waits(m: MessageView, n: int)
    requires
        m.fits(),
        m.payload().len() <= MAX_FRAME,
        0 <= n < m.frame().len(),
    ensures
        parse_front(m.frame().take(n)) == Ok::<Option<MessageView>, ProtocolError>(None),
        front_len(m.frame().take(n)) == 0,
{
    let buf = m.frame().take(n);
    lemma_frame_shape(m);
    if n >= 5 {
        assert(buf.subrange(1, 5) =~= m.frame().subrange(1, 5));
    }
}

/// An oversized frame is refused, whatever its type and contents.
pub proof fn law_oversized_frame_is_refused(buf: Seq<u8>)
    requires
        buf.len() >= 5,
        number_at(buf, 1, 4) > MAX_FRAME,
    ensures
        parse_front(buf) == Err::<Option<MessageView>, ProtocolError>(
            ProtocolError::FrameTooLarge(number_at(buf, 1, 4) as u32),
        ),
        front_len(buf) == 0,
{
}

/// The frames of messages, one after the other.
pub open spec fn frames(msgs: Seq<MessageView>) -> Seq<u8>
    decreases msgs.len(),
{
    if msgs.len() == 0 {
        Seq::empty()
    } else {
        msgs[0].frame() + frames(msgs.skip(1))
    }
}

/// The messages that reading a buffer yields until none is complete or one is
/// refused.
pub open spec fn drained(buf: Seq<u8>) -> Seq<MessageView>
    decreases buf.len(),
{
    if front_len(buf) == 0 {
        Seq::empty()
    } else {
        match parse_front(buf) {
            Ok(Some(m)) => seq![m] + drained(buf.skip(front_len(buf) as int)),
            _ => Seq::empty(),
        }
    }
}

/// A stream of frames is read as its messages, in order, even if the last frame
/// has only arrived in part; only the total of what arrived matters, not how it
/// was cut into chunks.
pub proof fn law_stream_yields_messages(msgs: Seq<MessageView>, next: MessageView, n: int)
    requires
        forall|i: int|
            0 <= i < msgs.len() ==> (#[trigger] msgs[i]).fits() && msgs[i].payload().len()
                <= MAX_FRAME,
        next.fits(),
        next.payload().len() <= MAX_FRAME,
        0 <= n < next.frame().len(),
    ensures
        drained(frames(msgs) + next.frame().take(n)) == msgs,
    decreases msgs.len(),
{
    let tail = next.frame().take(n);
    if msgs.len() == 0 {
        assert(frames(msgs) + tail =~= tail);
        law_partial_frame_waits(next, n);
        assert(msgs =~= Seq::<MessageView>::empty());
    } else {
        let m = msgs[0];
        let others = msgs.skip(1);
        assert forall|i: int| 0 <= i < others.len() implies (#[trigger] others[i]).fits()
            && others[i].payload().len() <= MAX_FRAME by {
            assert(others[i] == msgs[i + 1]);
        }
        let rest = frames(others) + tail;
        law_stream_yields_messages(others, next, n);
        assert(frames(msgs) + tail =~= m.frame() + rest);
        law_front_frame_is_taken(m, rest);
        lemma_frame_shape(m);
        assert((m.frame() + rest).subrange(1, 5) =~= m.frame().subrange(1, 5));
        assert(seq![m] + others =~= msgs);
    }
}

} // verus!
