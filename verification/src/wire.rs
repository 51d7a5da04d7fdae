//! Compact binary wire protocol.
//!
//! A frame is a type byte, the payload length in four bytes, lowest first, and
//! the payload.
use crate::buffers::{
    buffer_content, buffer_from, buffer_slice, buffer_split_to, bytes_content, bytes_from,
    bytes_slice,
};
use crate::endian::{le_bytes, le_value, lemma_pow256, pow256, push_le, read_le};
use bytes::{Bytes, BytesMut};
use vstd::prelude::*;
use vstd::slice::{slice_subrange, slice_to_vec};
use vstd::utf8::{decode_utf8, encode_utf8, valid_utf8};

verus! {

pub const TYPE_HELLO: u8 = 0x01;

pub const TYPE_META: u8 = 0x02;

pub const TYPE_SYMBOL: u8 = 0x03;

pub const TYPE_DONE: u8 = 0x04;

pub const TYPE_READY: u8 = 0x05;

pub const TYPE_DIRECT: u8 = 0x06;

pub const ROLE_SENDER: u8 = 0x01;

pub const ROLE_RECEIVER: u8 = 0x02;

/// The largest payload that is accepted from a peer.
pub const MAX_FRAME: u32 = 512 * 1024 * 1024;

/// Why bytes are not a message.
#[derive(Debug, Clone, Copy, PartialEq, Eq)]
pub enum ProtocolError {
    /// The type byte stands for no message.
    InvalidType(u8),
    /// The announced payload is larger than `MAX_FRAME`.
    FrameTooLarge(u32),
    /// The message ends early, or its length does not fit its frame.
    Truncated,
    /// A filename or an address is not UTF-8.
    InvalidFilename,
}

/// A message between sender, relay and receiver.
#[derive(Debug, PartialEq, Eq)]
pub enum OrbitMessage {
    Hello { session_id: u64, role: u8 },
    Meta {
        session_id: u64,
        filename: String,
        size: u64,
        symbol_size: u32,
        k: u32,
        checksum: u64,
    },
    Symbol { session_id: u64, esi: u32, data: Bytes },
    Done { session_id: u64 },
    Ready { session_id: u64 },
    Direct { session_id: u64, addr: String },
}

/// What a message says.
#[verifier::ext_equal]
pub enum MessageView {
    Hello { session_id: u64, role: u8 },
    Meta {
        session_id: u64,
        filename: Seq<char>,
        size: u64,
        symbol_size: u32,
        k: u32,
        checksum: u64,
    },
    Symbol { session_id: u64, esi: u32, data: Seq<u8> },
    Done { session_id: u64 },
    Ready { session_id: u64 },
    Direct { session_id: u64, addr: Seq<char> },
}

impl View for OrbitMessage {
    type V = MessageView;

    open spec fn view(&self) -> MessageView {
        match *self {
            OrbitMessage::Hello { session_id, role } => MessageView::Hello { session_id, role },
            OrbitMessage::Meta { session_id, filename, size, symbol_size, k, checksum } => {
                MessageView::Meta {
                    session_id,
                    filename: filename@,
                    size,
                    symbol_size,
                    k,
                    checksum,
                }
            },
            OrbitMessage::Symbol { session_id, esi, data } => MessageView::Symbol {
                session_id,
                esi,
                data: bytes_content(data),
            },
            OrbitMessage::Done { session_id } => MessageView::Done { session_id },
            OrbitMessage::Ready { session_id } => MessageView::Ready { session_id },
            OrbitMessage::Direct { session_id, addr } => MessageView::Direct {
                session_id,
                addr: addr@,
            },
        }
    }
}

impl Clone for OrbitMessage {
    fn clone(&self) -> (copy: Self)
        ensures
            copy@ == self@,
    {
        match self {
            OrbitMessage::Hello { session_id, role } => OrbitMessage::Hello {
                session_id: *session_id,
                role: *role,
            },
            OrbitMessage::Meta { session_id, filename, size, symbol_size, k, checksum } => {
                OrbitMessage::Meta {
                    session_id: *session_id,
                    filename: filename.clone(),
                    size: *size,
                    symbol_size: *symbol_size,
                    k: *k,
                    checksum: *checksum,
                }
            },
            OrbitMessage::Symbol { session_id, esi, data } => OrbitMessage::Symbol {
                session_id: *session_id,
                esi: *esi,
                data: data.clone(),
            },
            OrbitMessage::Done { session_id } => OrbitMessage::Done { session_id: *session_id },
            OrbitMessage::Ready { session_id } => OrbitMessage::Ready { session_id: *session_id },
            OrbitMessage::Direct { session_id, addr } => OrbitMessage::Direct {
                session_id: *session_id,
                addr: addr.clone(),
            },
        }
    }
}

impl MessageView {
    /// The session that a message belongs to.
    pub open spec fn session_id(self) -> u64 {
        match self {
            MessageView::Hello { session_id, .. } => session_id,
            MessageView::Meta { session_id, .. } => session_id,
            MessageView::Symbol { session_id, .. } => session_id,
            MessageView::Done { session_id } => session_id,
            MessageView::Ready { session_id } => session_id,
            MessageView::Direct { session_id, .. } => session_id,
        }
    }

    /// The type byte of a message.
    pub open spec fn type_byte(self) -> u8 {
        match self {
            MessageView::Hello { .. } => TYPE_HELLO,
            MessageView::Meta { .. } => TYPE_META,
            MessageView::Symbol { .. } => TYPE_SYMBOL,
            MessageView::Done { .. } => TYPE_DONE,
            MessageView::Ready { .. } => TYPE_READY,
            MessageView::Direct { .. } => TYPE_DIRECT,
        }
    }

    /// The payload of a message.
    pub open spec fn payload(self) -> Seq<u8> {
        match self {
            MessageView::Hello { session_id, role } => le_bytes(session_id as nat, 8) + seq![role],
            MessageView::Meta { session_id, filename, size, symbol_size, k, checksum } => {
                le_bytes(session_id as nat, 8) + counted(encode_utf8(filename)) + le_bytes(
                    size as nat,
                    8,
                ) + le_bytes(symbol_size as nat, 4) + le_bytes(k as nat, 4) + le_bytes(
                    checksum as nat,
                    8,
                )
            },
            MessageView::Symbol { session_id, esi, data } => le_bytes(session_id as nat, 8)
                + le_bytes(esi as nat, 4) + data,
            MessageView::Done { session_id } => le_bytes(session_id as nat, 8),
            MessageView::Ready { session_id } => le_bytes(session_id as nat, 8),
            MessageView::Direct { session_id, addr } => le_bytes(session_id as nat, 8) + counted(
                encode_utf8(addr),
            ),
        }
    }

    /// The frame of a message. Only the lowest four bytes of the payload length
    /// are kept.
    pub open spec fn frame(self) -> Seq<u8> {
        seq![self.type_byte()] + le_bytes(self.payload().len(), 4) + self.payload()
    }

    /// Whether the lengths in the frame of a message are the true ones.
    pub open spec fn fits(self) -> bool {
        &&& self.payload().len() < pow256(4)
        &&& match self {
            MessageView::Meta { filename, .. } => encode_utf8(filename).len() < pow256(2),
            MessageView::Direct { addr, .. } => encode_utf8(addr).len() < pow256(2),
            _ => true,
        }
    }
}

/// A byte string after its length, of which the lowest two bytes are kept.
pub open spec fn counted(text: Seq<u8>) -> Seq<u8> {
    le_bytes(text.len(), 2) + text
}

/// The number in the `n` bytes from `at` on.
pub open spec fn number_at(b: Seq<u8>, at: int, n: int) -> nat {
    le_value(b.subrange(at, at + n))
}

/// The message that a payload of type `ty` carries.
pub open spec fn parse_payload(ty: u8, b: Seq<u8>) -> Result<MessageView, ProtocolError> {
    if ty == TYPE_HELLO {
        if b.len() < 9 {
            Err(ProtocolError::Truncated)
        } else {
            Ok(MessageView::Hello { session_id: number_at(b, 0, 8) as u64, role: b[8] })
        }
    } else if ty == TYPE_META {
        parse_meta(b)
    } else if ty == TYPE_SYMBOL {
        if b.len() < 12 {
            Err(ProtocolError::Truncated)
        } else {
            Ok(
                MessageView::Symbol {
                    session_id: number_at(b, 0, 8) as u64,
                    esi: number_at(b, 8, 4) as u32,
                    data: b.skip(12),
                },
            )
        }
    } else if ty == TYPE_DONE {
        if b.len() < 8 {
            Err(ProtocolError::Truncated)
        } else {
            Ok(MessageView::Done { session_id: number_at(b, 0, 8) as u64 })
        }
    } else if ty == TYPE_READY {
        if b.len() < 8 {
            Err(ProtocolError::Truncated)
        } else {
            Ok(MessageView::Ready { session_id: number_at(b, 0, 8) as u64 })
        }
    } else if ty == TYPE_DIRECT {
        parse_direct(b)
    } else {
        Err(ProtocolError::InvalidType(ty))
    }
}

/// The Meta message that a payload carries.
pub open spec fn parse_meta(b: Seq<u8>) -> Result<MessageView, ProtocolError> {
    let n = number_at(b, 8, 2) as int;
    let name = b.subrange(10, 10 + n);
    if b.len() < 10 || b.len() < 10 + n + 20 {
        Err(ProtocolError::Truncated)
    } else if !valid_utf8(name) {
        Err(ProtocolError::InvalidFilename)
    } else if b.len() < 10 + n + 24 {
        Err(ProtocolError::Truncated)
    } else {
        Ok(
            MessageView::Meta {
                session_id: number_at(b, 0, 8) as u64,
                filename: decode_utf8(name),
                size: number_at(b, 10 + n, 8) as u64,
                symbol_size: number_at(b, 18 + n, 4) as u32,
                k: number_at(b, 22 + n, 4) as u32,
                checksum: number_at(b, 26 + n, 8) as u64,
            },
        )
    }
}

/// The Direct message that a payload carries.
pub open spec fn parse_direct(b: Seq<u8>) -> Result<MessageView, ProtocolError> {
    let n = number_at(b, 8, 2) as int;
    let name = b.subrange(10, 10 + n);
    if b.len() < 10 || b.len() < 10 + n {
        Err(ProtocolError::Truncated)
    } else if !valid_utf8(name) {
        Err(ProtocolError::InvalidFilename)
    } else {
        Ok(
            MessageView::Direct {
                session_id: number_at(b, 0, 8) as u64,
                addr: decode_utf8(name),
            },
        )
    }
}

/// The message in a whole frame.
pub open spec fn parse_whole(frame: Seq<u8>) -> Result<MessageView, ProtocolError> {
    if frame.len() < 5 || frame.len() != 5 + number_at(frame, 1, 4) {
        Err(ProtocolError::Truncated)
    } else {
        parse_payload(frame[0], frame.skip(5))
    }
}

/// What a buffer of received bytes starts with: nothing complete yet, a frame
/// that is refused, or a whole frame.
pub open spec fn parse_front(buf: Seq<u8>) -> Result<Option<MessageView>, ProtocolError> {
    let len = number_at(buf, 1, 4);
    if buf.len() < 5 {
        Ok(None)
    } else if len > MAX_FRAME {
        Err(ProtocolError::FrameTooLarge(len as u32))
    } else if buf.len() < 5 + len {
        Ok(None)
    } else {
        match parse_whole(buf.take((5 + len) as int)) {
            Ok(msg) => Ok(Some(msg)),
            Err(e) => Err(e),
        }
    }
}

/// How many bytes reading the front of a buffer takes off it.
pub open spec fn front_len(buf: Seq<u8>) -> nat {
    let len = number_at(buf, 1, 4);
    if buf.len() < 5 || len > MAX_FRAME || buf.len() < 5 + len {
        0
    } else {
        5 + len
    }
}

/// Calls `String::from_utf8`: valid UTF-8 becomes the text that it encodes,
/// anything else is refused.
#[verifier::external_body]
fn utf8_text(bytes: Vec<u8>) -> (text: Option<String>)
    ensures
        text is Some <==> valid_utf8(bytes@),
        text matches Some(t) ==> t@ == decode_utf8(bytes@),
{
    String::from_utf8(bytes).ok()
}

/// Copies the bytes from `from` up to `to`.
fn copy_range(s: &[u8], from: usize, to: usize) -> (copy: Vec<u8>)
    requires
        from <= to <= s@.len(),
    ensures
        copy@ == s@.subrange(from as int, to as int),
{
    slice_to_vec(slice_subrange(s, from, to))
}

/// Appends bytes.
fn push_bytes(out: &mut Vec<u8>, data: &[u8])
    ensures
        final(out)@ == old(out)@ + data@,
{
    let ghost before = out@;
    let mut i: usize = 0;
    let len: usize = data.len();
    proof {
        assert(before =~= before + data@.take(0));
    }
    while i < len
        invariant
            i <= len == data@.len(),
            out@ == before + data@.take(i as int),
        decreases len - i,
    {
        proof {
            assert(before + data@.take(i + 1) =~= (before + data@.take(i as int)).push(
                data@[i as int],
            ));
        }
        out.push(data[i]);
        i = i + 1;
    }
    proof {
        assert(data@.take(len as int) =~= data@);
    }
}

/// Appends a text after its length, of which the lowest two bytes are kept.
fn push_counted(out: &mut Vec<u8>, text: &String)
    ensures
        final(out)@ == old(out)@ + counted(encode_utf8(text@)),
{
    let bytes: &[u8] = text.as_str().as_bytes();
    let ghost before = out@;
    push_le(out, bytes.len() as u64, 2);
    push_bytes(out, bytes);
    proof {
        assert(out@ =~= before + counted(encode_utf8(text@)));
    }
}

impl OrbitMessage {
    /// The session that the message belongs to.
    pub fn session_id(&self) -> (id: u64)
        ensures
            id == self@.session_id(),
    {
        match self {
            OrbitMessage::Hello { session_id, .. } => *session_id,
            OrbitMessage::Meta { session_id, .. } => *session_id,
            OrbitMessage::Symbol { session_id, .. } => *session_id,
            OrbitMessage::Done { session_id } => *session_id,
            OrbitMessage::Ready { session_id } => *session_id,
            OrbitMessage::Direct { session_id, .. } => *session_id,
        }
    }

    /// The type byte and the payload of the message.
    fn payload_bytes(&self) -> (r: (u8, Vec<u8>))
        ensures
            r.0 == self@.type_byte(),
            r.1@ == self@.payload(),
    {
        let mut payload: Vec<u8> = Vec::new();
        let ty: u8;
        match self {
            OrbitMessage::Hello { session_id, role } => {
                ty = TYPE_HELLO;
                push_le(&mut payload, *session_id, 8);
                payload.push(*role);
            },
            OrbitMessage::Meta { session_id, filename, size, symbol_size, k, checksum } => {
                ty = TYPE_META;
                push_le(&mut payload, *session_id, 8);
                push_counted(&mut payload, filename);
                push_le(&mut payload, *size, 8);
                push_le(&mut payload, *symbol_size as u64, 4);
                push_le(&mut payload, *k as u64, 4);
                push_le(&mut payload, *checksum, 8);
            },
            OrbitMessage::Symbol { session_id, esi, data } => {
                ty = TYPE_SYMBOL;
                push_le(&mut payload, *session_id, 8);
                push_le(&mut payload, *esi as u64, 4);
                push_bytes(&mut payload, bytes_slice(data));
            },
            OrbitMessage::Done { session_id } => {
                ty = TYPE_DONE;
                push_le(&mut payload, *session_id, 8);
            },
            OrbitMessage::Ready { session_id } => {
                ty = TYPE_READY;
                push_le(&mut payload, *session_id, 8);
            },
            OrbitMessage::Direct { session_id, addr } => {
                ty = TYPE_DIRECT;
                push_le(&mut payload, *session_id, 8);
                push_counted(&mut payload, addr);
            },
        }
        proof {
            assert(payload@ =~= self@.payload());
        }
        (ty, payload)
    }

    /// The frame of the message, as plain bytes.
    pub fn frame_bytes(&self) -> (frame: Vec<u8>)
        ensures
            frame@ == self@.frame(),
    {
        let (ty, payload) = self.payload_bytes();
        let mut frame: Vec<u8> = Vec::new();
        frame.push(ty);
        push_le(&mut frame, payload.len() as u64, 4);
        push_bytes(&mut frame, payload.as_slice());
        proof {
            assert(frame@ =~= self@.frame());
        }
        frame
    }

    /// The frame of the message.
    pub fn encode(&self) -> (frame: BytesMut)
        ensures
            buffer_content(frame) == self@.frame(),
    {
        let frame = self.frame_bytes();
        buffer_from(frame.as_slice())
    }

    /// Reads the message in a whole frame.
    pub fn decode(frame: &[u8]) -> (msg: Result<OrbitMessage, ProtocolError>)
        ensures
            match msg {
                Ok(m) => parse_whole(frame@) == Ok::<MessageView, ProtocolError>(m@),
                Err(e) => parse_whole(frame@) == Err::<MessageView, ProtocolError>(e),
            },
    {
        if frame.len() < 5 {
            return Err(ProtocolError::Truncated);
        }
        let ty: u8 = frame[0];
        let len: u64 = read_le(frame, 1, 4);
        if (frame.len() - 5) as u64 != len {
            return Err(ProtocolError::Truncated);
        }
        let b: Vec<u8> = copy_range(frame, 5, frame.len());
        proof {
            assert(b@ =~= frame@.skip(5));
        }
        Self::decode_payload(ty, b)
    }

    /// Reads the message that a payload carries.
    fn decode_payload(ty: u8, b: Vec<u8>) -> (msg: Result<OrbitMessage, ProtocolError>)
        ensures
            match msg {
                Ok(m) => parse_payload(ty, b@) == Ok::<MessageView, ProtocolError>(m@),
                Err(e) => parse_payload(ty, b@) == Err::<MessageView, ProtocolError>(e),
            },
    {
        let s: &[u8] = b.as_slice();
        let len: usize = s.len();
        proof {
            lemma_pow256();
        }
        if ty == TYPE_HELLO {
            if len < 9 {
                return Err(ProtocolError::Truncated);
            }
            Ok(OrbitMessage::Hello { session_id: read_le(s, 0, 8), role: s[8] })
        } else if ty == TYPE_META {
            if len < 10 {
                return Err(ProtocolError::Truncated);
            }
            let session_id: u64 = read_le(s, 0, 8);
            let name_len: usize = read_le(s, 8, 2) as usize;
            if len - 10 < name_len + 20 {
                return Err(ProtocolError::Truncated);
            }
            let filename = match utf8_text(copy_range(s, 10, 10 + name_len)) {
                Some(text) => text,
                None => {
                    return Err(ProtocolError::InvalidFilename);
                },
            };
            if len - 10 < name_len + 24 {
                return Err(ProtocolError::Truncated);
            }
            Ok(
                OrbitMessage::Meta {
                    session_id,
                    filename,
                    size: read_le(s, 10 + name_len, 8),
                    symbol_size: read_le(s, 18 + name_len, 4) as u32,
                    k: read_le(s, 22 + name_len, 4) as u32,
                    checksum: read_le(s, 26 + name_len, 8),
                },
            )
        } else if ty == TYPE_SYMBOL {
            if len < 12 {
                return Err(ProtocolError::Truncated);
            }
            let session_id: u64 = read_le(s, 0, 8);
            let esi: u32 = read_le(s, 8, 4) as u32;
            let rest = copy_range(s, 12, len);
            proof {
                assert(rest@ =~= b@.skip(12));
            }
            Ok(OrbitMessage::Symbol { session_id, esi, data: bytes_from(rest) })
        } else if ty == TYPE_DONE {
            if len < 8 {
                return Err(ProtocolError::Truncated);
            }
            Ok(OrbitMessage::Done { session_id: read_le(s, 0, 8) })
        } else if ty == TYPE_READY {
            if len < 8 {
                return Err(ProtocolError::Truncated);
            }
            Ok(OrbitMessage::Ready { session_id: read_le(s, 0, 8) })
        } else if ty == TYPE_DIRECT {
            if len < 10 {
                return Err(ProtocolError::Truncated);
            }
            let session_id: u64 = read_le(s, 0, 8);
            let addr_len: usize = read_le(s, 8, 2) as usize;
            if len - 10 < addr_len {
                return Err(ProtocolError::Truncated);
            }
            match utf8_text(copy_range(s, 10, 10 + addr_len)) {
                Some(addr) => Ok(OrbitMessage::Direct { session_id, addr }),
                None => Err(ProtocolError::InvalidFilename),
            }
        } else {
            Err(ProtocolError::InvalidType(ty))
        }
    }

    /// Attempts to parse a complete frame from `buf`, consuming it when it is
    /// there.
    pub fn parse_frame(buf: &mut BytesMut) -> (msg: Result<Option<OrbitMessage>, ProtocolError>)
        ensures
            match msg {
                Ok(Some(m)) => parse_front(buffer_content(*old(buf))) == Ok::<
                    Option<MessageView>,
                    ProtocolError,
                >(Some(m@)),
                Ok(None) => parse_front(buffer_content(*old(buf))) == Ok::<
                    Option<MessageView>,
                    ProtocolError,
                >(None),
                Err(e) => parse_front(buffer_content(*old(buf))) == Err::<
                    Option<MessageView>,
                    ProtocolError,
                >(e),
            },
            buffer_content(*final(buf)) == buffer_content(*old(buf)).skip(
                front_len(buffer_content(*old(buf))) as int,
            ),
    {
        let ghost before = buffer_content(*buf);
        proof {
            assert(before.skip(0) =~= before);
            lemma_pow256();
        }
        let view: &[u8] = buffer_slice(buf);
        let held: usize = view.len();
        if held < 5 {
            return Ok(None);
        }
        let len: u64 = read_le(view, 1, 4);
        if len > MAX_FRAME as u64 {
            return Err(ProtocolError::FrameTooLarge(len as u32));
        }
        if held - 5 < len as usize {
            return Ok(None);
        }
        let frame = buffer_split_to(buf, 5 + len as usize);
        match OrbitMessage::decode(buffer_slice(&frame)) {
            Ok(m) => Ok(Some(m)),
            Err(e) => Err(e),
        }
    }
}

} // verus!
