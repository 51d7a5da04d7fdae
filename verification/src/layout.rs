//! Where each byte of a message, a nonce and a key's salt stands.
use crate::address::{advertised_as, asks_for_quic, listens_on, without_quic};
use crate::buffers::bytes_content;
use crate::bindings::{checksum_value, digit_value, digits_value, hex_text};
use crate::crypto::{
    aead_open, aead_seal, argon2id_key, nonce_bytes, opened_symbol, sealed_symbol, session_key,
};
use crate::endian::{
    le_bytes, le_value, lemma_le_bound, lemma_le_len, lemma_pow256, pow256,
};
use crate::wire::{
    front_len, number_at, parse_front, parse_payload, parse_whole, MessageView, OrbitMessage, ProtocolError,
};
use vstd::arithmetic::div_mod::{lemma_div_denominator, lemma_fundamental_div_mod_converse};
use vstd::prelude::*;
use vstd::utf8::{decode_utf8_encode_utf8, encode_utf8, valid_utf8};

verus! {

/// Byte `i` of a number, counted from the lowest.
pub open spec fn byte_of(v: nat, i: nat) -> nat {
    (v / pow256(i)) % 256
}

/// Numbers are written lowest byte first: byte `i` counts `256^i`.
pub proof fn law_numbers_are_little_endian(v: nat, n: nat, i: nat)
    requires
        i < n,
    ensures
        le_bytes(v, n).len() == n,
        le_bytes(v, n)[i as int] == byte_of(v, i),
        pow256(0) == 1,
        pow256(1) == 0x100,
        pow256(2) == 0x1_0000,
        pow256(3) == 0x100_0000,
        pow256(4) == 0x1_0000_0000,
        pow256(5) == 0x100_0000_0000,
        pow256(6) == 0x1_0000_0000_0000,
        pow256(7) == 0x100_0000_0000_0000,
    decreases n,
{
    lemma_pow256();
    lemma_le_len(v, n);
    if i > 0 {
        let m = (n - 1) as nat;
        let j = (i - 1) as nat;
        law_numbers_are_little_endian(v / 256, m, j);
        lemma_pow256_positive(j);
        lemma_div_denominator(v as int, 256, pow256(j) as int);
        assert(le_bytes(v, n)[i as int] == le_bytes(v / 256, m)[j as int]);
    } else {
        lemma_le_len(v / 256, (n - 1) as nat);
        assert(v / 1 == v) by (nonlinear_arith);
    }
}

/// Numbers are read lowest byte first: byte `i` counts `256^i`.
pub proof fn law_numbers_are_read_little_endian(s: Seq<u8>, i: nat)
    requires
        i < s.len(),
    ensures
        byte_of(le_value(s), i) == s[i as int],
        le_value(s) < pow256(s.len()),
    decreases s.len(),
{
    lemma_le_bound(s);
    let low = s[0] as int;
    let rest = le_value(s.skip(1)) as int;
    lemma_fundamental_div_mod_converse(le_value(s) as int, 256, rest, low);
    if i > 0 {
        let j = (i - 1) as nat;
        law_numbers_are_read_little_endian(s.skip(1), j);
        lemma_pow256_positive(j);
        lemma_div_denominator(le_value(s) as int, 256, pow256(j) as int);
        assert(s.skip(1)[j as int] == s[i as int]);
    } else {
        lemma_pow256();
        assert(le_value(s) / 1 == le_value(s)) by (nonlinear_arith);
    }
}

/// Powers are positive.
proof fn lemma_pow256_positive(n: nat)
    ensures
        pow256(n) > 0,
    decreases n,
{
    if n > 0 {
        lemma_pow256_positive((n - 1) as nat);
    }
}

/// Writing back a number that was read gives the bytes it was read from.
proof fn lemma_le_inverse(s: Seq<u8>)
    ensures
        le_bytes(le_value(s), s.len()) == s,
{
    lemma_le_len(le_value(s), s.len());
    assert forall|i: int| 0 <= i < s.len() implies le_bytes(le_value(s), s.len())[i] == s[i] by {
        law_numbers_are_little_endian(le_value(s), s.len(), i as nat);
        law_numbers_are_read_little_endian(s, i as nat);
    }
    assert(le_bytes(le_value(s), s.len()) =~= s);
}

/// Whether a number stands, lowest byte first, in the `n` bytes from `at` on.
pub open spec fn stands_at(b: Seq<u8>, at: int, n: nat, v: nat) -> bool {
    &&& 0 <= at
    &&& at + n <= b.len()
    &&& forall|i: nat| i < n ==> b[at + i] == #[trigger] byte_of(v, i)
}

/// Whether bytes stand from `at` on.
pub open spec fn bytes_at(b: Seq<u8>, at: int, text: Seq<u8>) -> bool {
    &&& 0 <= at
    &&& at + text.len() <= b.len()
    &&& forall|i: int| 0 <= i < text.len() ==> #[trigger] b[at + i] == text[i]
}

/// A number that is written into a byte string stands there.
proof fn lemma_stands(b: Seq<u8>, at: int, n: nat, v: nat)
    requires
        0 <= at,
        at + n <= b.len(),
        b.subrange(at, at + n) == le_bytes(v, n),
    ensures
        stands_at(b, at, n, v),
{
    assert forall|i: nat| i < n implies b[at + i] == #[trigger] byte_of(v, i) by {
        law_numbers_are_little_endian(v, n, i);
        assert(b.subrange(at, at + n)[i as int] == b[at + i]);
    }
}

/// A frame is its type, the length of its payload in four bytes, and its payload.
/// The types are 1 to 6.
pub proof fn law_frame_layout(m: MessageView)
    ensures
        m.frame().len() == 5 + m.payload().len(),
        m.frame()[0] == (match m {
            MessageView::Hello { .. } => 1u8,
            MessageView::Meta { .. } => 2u8,
            MessageView::Symbol { .. } => 3u8,
            MessageView::Done { .. } => 4u8,
            MessageView::Ready { .. } => 5u8,
            MessageView::Direct { .. } => 6u8,
        }),
        stands_at(m.frame(), 1, 4, m.payload().len()),
        bytes_at(m.frame(), 5, m.payload()),
{
    lemma_le_len(m.payload().len(), 4);
    assert(m.frame().subrange(1, 5) =~= le_bytes(m.payload().len(), 4));
    lemma_stands(m.frame(), 1, 4, m.payload().len());
    assert forall|i: int| 0 <= i < m.payload().len() implies #[trigger] m.frame()[5 + i]
        == m.payload()[i] by {}
}

/// Every payload starts with the session id in eight bytes.
pub proof fn law_payloads_start_with_the_session(m: MessageView)
    ensures
        stands_at(m.payload(), 0, 8, m.session_id() as nat),
        m.session_id() == (match m {
            MessageView::Hello { session_id, .. } => session_id,
            MessageView::Meta { session_id, .. } => session_id,
            MessageView::Symbol { session_id, .. } => session_id,
            MessageView::Done { session_id } => session_id,
            MessageView::Ready { session_id } => session_id,
            MessageView::Direct { session_id, .. } => session_id,
        }),
{
    lemma_le_len(m.session_id() as nat, 8);
    assert(m.payload().subrange(0, 8) =~= le_bytes(m.session_id() as nat, 8));
    lemma_stands(m.payload(), 0, 8, m.session_id() as nat);
}

/// What stands behind the session id: the role of a Hello; the ESI, in four
/// bytes, and the data of a symbol; nothing in Done and READY; an address behind
/// its length, in two bytes; and in a Meta the name behind its length, then size,
/// symbol size, K and checksum in eight, four, four and eight bytes.
pub proof fn law_payload_layout(m: MessageView)
    ensures
        match m {
            MessageView::Hello { role, .. } => m.payload().len() == 9 && m.payload()[8] == role,
            MessageView::Symbol { esi, data, .. } => {
                &&& m.payload().len() == 12 + data.len()
                &&& stands_at(m.payload(), 8, 4, esi as nat)
                &&& bytes_at(m.payload(), 12, data)
            },
            MessageView::Done { .. } => m.payload().len() == 8,
            MessageView::Ready { .. } => m.payload().len() == 8,
            MessageView::Direct { addr, .. } => {
                let text = encode_utf8(addr);
                &&& m.payload().len() == 10 + text.len()
                &&& stands_at(m.payload(), 8, 2, text.len())
                &&& bytes_at(m.payload(), 10, text)
            },
            MessageView::Meta { filename, size, symbol_size, k, checksum, .. } => {
                let text = encode_utf8(filename);
                let n = text.len() as int;
                &&& m.payload().len() == 34 + n
                &&& stands_at(m.payload(), 8, 2, text.len())
                &&& bytes_at(m.payload(), 10, text)
                &&& stands_at(m.payload(), 10 + n, 8, size as nat)
                &&& stands_at(m.payload(), 18 + n, 4, symbol_size as nat)
                &&& stands_at(m.payload(), 22 + n, 4, k as nat)
                &&& stands_at(m.payload(), 26 + n, 8, checksum as nat)
            },
        },
{
    let b = m.payload();
    lemma_le_len(m.session_id() as nat, 8);
    match m {
        MessageView::Symbol { esi, data, .. } => {
            lemma_le_len(esi as nat, 4);
            assert(b.subrange(8, 12) =~= le_bytes(esi as nat, 4));
            lemma_stands(b, 8, 4, esi as nat);
            assert forall|i: int| 0 <= i < data.len() implies #[trigger] b[12 + i] == data[i] by {}
        },
        MessageView::Direct { addr, .. } => {
            let text = encode_utf8(addr);
            lemma_le_len(text.len(), 2);
            assert(b.subrange(8, 10) =~= le_bytes(text.len(), 2));
            lemma_stands(b, 8, 2, text.len());
            assert forall|i: int| 0 <= i < text.len() implies #[trigger] b[10 + i] == text[i] by {}
        },
        MessageView::Meta { filename, size, symbol_size, k, checksum, .. } => {
            let text = encode_utf8(filename);
            let n = text.len() as int;
            lemma_le_len(text.len(), 2);
            lemma_le_len(size as nat, 8);
            lemma_le_len(symbol_size as nat, 4);
            lemma_le_len(k as nat, 4);
            lemma_le_len(checksum as nat, 8);
            assert(b.subrange(8, 10) =~= le_bytes(text.len(), 2));
            lemma_stands(b, 8, 2, text.len());
            assert forall|i: int| 0 <= i < text.len() implies #[trigger] b[10 + i] == text[i] by {}
            assert(b.subrange(10 + n, 10 + n + 8) =~= le_bytes(size as nat, 8));
            lemma_stands(b, 10 + n, 8, size as nat);
            assert(b.subrange(18 + n, 18 + n + 4) =~= le_bytes(symbol_size as nat, 4));
            lemma_stands(b, 18 + n, 4, symbol_size as nat);
            assert(b.subrange(22 + n, 22 + n + 4) =~= le_bytes(k as nat, 4));
            lemma_stands(b, 22 + n, 4, k as nat);
            assert(b.subrange(26 + n, 26 + n + 8) =~= le_bytes(checksum as nat, 8));
            lemma_stands(b, 26 + n, 8, checksum as nat);
        },
        _ => {},
    }
}

/// The number in some bytes, written out, gives those bytes.
proof fn lemma_number_back(b: Seq<u8>, at: int, n: int)
    requires
        0 <= at,
        0 <= n <= 8,
        at + n <= b.len(),
    ensures
        le_bytes(number_at(b, at, n), n as nat) == b.subrange(at, at + n),
        number_at(b, at, n) < pow256(n as nat),
{
    lemma_le_inverse(b.subrange(at, at + n));
    lemma_le_bound(b.subrange(at, at + n));
}

/// What is read is what stands there: a message that a payload is read as, written
/// out again, is how the payload starts, and all of it for a symbol.
pub proof fn law_parsing_reads_what_stands_there(ty: u8, b: Seq<u8>)
    ensures
        parse_payload(ty, b) matches Ok(m) ==> {
            &&& m.frame()[0] == ty
            &&& m.payload().len() <= b.len()
            &&& m.payload() == b.take(m.payload().len() as int)
            &&& m is Symbol ==> m.payload() == b
        },
{
    lemma_pow256();
    if let Ok(m) = parse_payload(ty, b) {
        lemma_number_back(b, 0, 8);
        lemma_le_len(m.session_id() as nat, 8);
        match m {
            MessageView::Symbol { .. } => {
                lemma_number_back(b, 8, 4);
                assert(m.payload() =~= b);
                assert(b.take(b.len() as int) =~= b);
            },
            MessageView::Direct { .. } => {
                lemma_number_back(b, 8, 2);
                let n = number_at(b, 8, 2) as int;
                decode_utf8_encode_utf8(b.subrange(10, 10 + n));
                lemma_le_len(n as nat, 2);
                assert(m.payload() =~= b.take(10 + n));
            },
            MessageView::Meta { size, symbol_size, k, checksum, .. } => {
                lemma_number_back(b, 8, 2);
                let n = number_at(b, 8, 2) as int;
                decode_utf8_encode_utf8(b.subrange(10, 10 + n));
                lemma_number_back(b, 10 + n, 8);
                lemma_number_back(b, 18 + n, 4);
                lemma_number_back(b, 22 + n, 4);
                lemma_number_back(b, 26 + n, 8);
                lemma_le_len(n as nat, 2);
                lemma_le_len(size as nat, 8);
                lemma_le_len(symbol_size as nat, 4);
                lemma_le_len(k as nat, 4);
                lemma_le_len(checksum as nat, 8);
                assert(m.payload() =~= b.take(34 + n));
            },
            _ => {
                assert(m.payload() =~= b.take(m.payload().len() as int));
            },
        }
    }
}

/// The length of a name or an address, as the two bytes behind the session id give
/// it.
pub open spec fn name_len(b: Seq<u8>) -> int {
    b[8] + 0x100 * b[9]
}

/// Which payloads are read: those long enough for their type, with a name or an
/// address that is UTF-8. Anything else fails for its own reason.
pub proof fn law_payloads_that_are_refused(ty: u8, b: Seq<u8>)
    ensures
        !(1 <= ty <= 6) <==> parse_payload(ty, b) == Err::<MessageView, ProtocolError>(
            ProtocolError::InvalidType(ty),
        ),
        ty == 1 ==> (parse_payload(ty, b) is Ok <==> b.len() >= 9),
        ty == 3 ==> (parse_payload(ty, b) is Ok <==> b.len() >= 12),
        ty == 4 || ty == 5 ==> (parse_payload(ty, b) is Ok <==> b.len() >= 8),
        ty == 6 ==> (parse_payload(ty, b) is Ok <==> b.len() >= 10 && b.len() >= 10 + name_len(b) && valid_utf8(b.subrange(10, 10 + name_len(b)))),
        ty == 2 ==> (parse_payload(ty, b) is Ok <==> b.len() >= 10 && b.len() >= 34 + name_len(b) && valid_utf8(b.subrange(10, 10 + name_len(b)))),
        parse_payload(ty, b) == Err::<MessageView, ProtocolError>(ProtocolError::InvalidFilename)
            ==> (ty == 2 || ty == 6) && b.len() >= 10 && b.len() >= 10 + name_len(b)
            && !valid_utf8(b.subrange(10, 10 + name_len(b))),
        parse_payload(ty, b) matches Err(e) ==> !(e is FrameTooLarge),
        parse_payload(ty, b) is Err && (ty == 1 || ty == 3 || ty == 4 || ty == 5)
            ==> parse_payload(ty, b) == Err::<MessageView, ProtocolError>(ProtocolError::Truncated),
        ty == 6 && (b.len() < 10 || b.len() < 10 + name_len(b)) ==> parse_payload(ty, b)
            == Err::<MessageView, ProtocolError>(ProtocolError::Truncated),
        ty == 2 && (b.len() < 10 || b.len() < 30 + name_len(b)) ==> parse_payload(ty, b)
            == Err::<MessageView, ProtocolError>(ProtocolError::Truncated),
{
    if b.len() >= 10 {
        let s = b.subrange(8, 10);
        assert(s.skip(1).skip(1) =~= Seq::<u8>::empty());
        assert(le_value(Seq::<u8>::empty()) == 0);
        assert(le_value(s.skip(1)) == s[1]);
        assert(number_at(b, 8, 2) == name_len(b));
    }
}

/// A frame is read exactly as its payload, provided that it is as long as it says.
pub proof fn law_frames_are_as_long_as_they_say(frame: Seq<u8>)
    ensures
        frame.len() < 5 ==> parse_whole(frame) == Err::<MessageView, ProtocolError>(
            ProtocolError::Truncated,
        ),
        frame.len() >= 5 && frame.len() - 5 != frame[1] + 0x100 * frame[2] + 0x1_0000 * frame[3]
            + 0x100_0000 * frame[4] ==> parse_whole(frame) == Err::<MessageView, ProtocolError>(
            ProtocolError::Truncated,
        ),
        frame.len() >= 5 && frame.len() - 5 == frame[1] + 0x100 * frame[2] + 0x1_0000 * frame[3]
            + 0x100_0000 * frame[4] ==> parse_whole(frame) == parse_payload(
            frame[0],
            frame.subrange(5, frame.len() as int),
        ),
{
    if frame.len() >= 5 {
        lemma_four_bytes(frame.subrange(1, 5));
        assert(frame.skip(5) =~= frame.subrange(5, frame.len() as int));
    }
}

/// The number in four bytes.
proof fn lemma_four_bytes(s: Seq<u8>)
    requires
        s.len() == 4,
    ensures
        le_value(s) == s[0] + 0x100 * s[1] + 0x1_0000 * s[2] + 0x100_0000 * s[3],
{
    assert(s.skip(1).skip(1) =~= s.skip(2));
    assert(s.skip(2).skip(1) =~= s.skip(3));
    assert(s.skip(3).skip(1) =~= Seq::<u8>::empty());
    assert(le_value(Seq::<u8>::empty()) == 0);
    assert(le_value(s.skip(3)) == s[3]);
    assert(le_value(s.skip(2)) == s[2] + 0x100 * s[3]);
    assert(le_value(s.skip(1)) == s[1] + 0x100 * s[2] + 0x1_0000 * s[3]);
}

/// A stream is read frame by frame: it waits for the five bytes of the head and
/// then for the payload; a payload of more than 512 MiB is refused, whatever it
/// is, and a whole frame is read as it would be by itself and taken off.
pub proof fn law_streams_are_read_by_frames(buf: Seq<u8>)
    ensures
        buf.len() < 5 ==> parse_front(buf) == Ok::<Option<MessageView>, ProtocolError>(None)
            && front_len(buf) == 0,
        buf.len() >= 5 ==> ({
            let len = buf[1] + 0x100 * buf[2] + 0x1_0000 * buf[3] + 0x100_0000 * buf[4];
            &&& len > 536_870_912 ==> parse_front(buf) == Err::<Option<MessageView>, ProtocolError>(
                ProtocolError::FrameTooLarge(len as u32),
            ) && front_len(buf) == 0
            &&& len <= 536_870_912 && buf.len() < 5 + len ==> parse_front(buf) == Ok::<
                Option<MessageView>,
                ProtocolError,
            >(None) && front_len(buf) == 0
            &&& len <= 536_870_912 && buf.len() >= 5 + len ==> front_len(buf) == 5 + len && (
            match parse_whole(buf.subrange(0, 5 + len)) {
                Ok(m) => parse_front(buf) == Ok::<Option<MessageView>, ProtocolError>(Some(m)),
                Err(e) => parse_front(buf) == Err::<Option<MessageView>, ProtocolError>(e),
            })
        }),
{
    if buf.len() >= 5 {
        lemma_four_bytes(buf.subrange(1, 5));
        let len = number_at(buf, 1, 4);
        if buf.len() >= 5 + len {
            assert(buf.take((5 + len) as int) =~= buf.subrange(0, (5 + len) as int));
        }
    }
}

/// A symbol is sealed under the session's key with its session id, in eight bytes,
/// and its ESI, in four, as nonce and as associated data, and opened the same
/// way.
pub proof fn law_sealing(key: Seq<u8>, session_id: u64, esi: u32, data: Seq<u8>)
    ensures
        ({
            let n = nonce_bytes(session_id, esi);
            &&& n.len() == 12
            &&& stands_at(n, 0, 8, session_id as nat)
            &&& stands_at(n, 8, 4, esi as nat)
            &&& sealed_symbol(key, session_id, esi, data) == aead_seal(key, n, n, data)
            &&& data.len() <= 274_877_906_832 ==> opened_symbol(key, session_id, esi, data)
                == aead_open(key, n, n, data)
            &&& data.len() > 274_877_906_832 ==> opened_symbol(key, session_id, esi, data) is None
        }),
{
    let n = nonce_bytes(session_id, esi);
    lemma_le_len(session_id as nat, 8);
    lemma_le_len(esi as nat, 4);
    assert(n.subrange(0, 8) =~= le_bytes(session_id as nat, 8));
    lemma_stands(n, 0, 8, session_id as nat);
    assert(n.subrange(8, 12) =~= le_bytes(esi as nat, 4));
    lemma_stands(n, 8, 4, esi as nat);
}

/// A key is derived from the whole passphrase, with one salt for all.
pub proof fn law_keys_are_derived_from_the_passphrase(secret: Seq<char>)
    ensures
        session_key(secret) == argon2id_key(
            encode_utf8(secret),
            seq![
                0x6Fu8, 0x72u8, 0x62u8, 0x69u8, 0x74u8, 0x2Du8, 0x74u8, 0x72u8, 0x61u8, 0x6Eu8,
                0x73u8, 0x66u8, 0x65u8, 0x72u8, 0x2Du8, 0x76u8, 0x31u8, 0x2Du8, 0x73u8, 0x61u8,
                0x6Cu8, 0x74u8,
            ],
        ),
{
    reveal_strlit("orbit-transfer-v1-salt");
    vstd::utf8::is_ascii_chars_encode_utf8("orbit-transfer-v1-salt"@);
    assert(encode_utf8("orbit-transfer-v1-salt"@) =~= seq![
        0x6Fu8, 0x72u8, 0x62u8, 0x69u8, 0x74u8, 0x2Du8, 0x74u8, 0x72u8, 0x61u8, 0x6Eu8,
        0x73u8, 0x66u8, 0x65u8, 0x72u8, 0x2Du8, 0x76u8, 0x31u8, 0x2Du8, 0x73u8, 0x61u8,
        0x6Cu8, 0x74u8,
    ]);
}

/// An address asks for QUIC exactly if it starts with `quic://`, and what is left
/// without it is all that follows.
pub proof fn law_quic_addresses(addr: Seq<char>, rest: Seq<char>)
    ensures
        asks_for_quic(addr) <==> addr.len() >= 7 && addr[0] == 'q' && addr[1] == 'u' && addr[2]
            == 'i' && addr[3] == 'c' && addr[4] == ':' && addr[5] == '/' && addr[6] == '/',
        asks_for_quic(addr) ==> without_quic(addr) == addr.subrange(7, addr.len() as int),
        !asks_for_quic(addr) ==> without_quic(addr) == addr,
        asks_for_quic(seq!['q', 'u', 'i', 'c', ':', '/', '/'] + rest),
        without_quic(seq!['q', 'u', 'i', 'c', ':', '/', '/'] + rest) == rest,
{
    reveal_strlit("quic://");
    let mark = seq!['q', 'u', 'i', 'c', ':', '/', '/'];
    assert("quic://"@ =~= mark);
    if addr.len() >= 7 {
        assert(addr.skip(7) =~= addr.subrange(7, addr.len() as int));
        if addr[0] == 'q' && addr[1] == 'u' && addr[2] == 'i' && addr[3] == 'c' && addr[4] == ':'
            && addr[5] == '/' && addr[6] == '/' {
            assert(addr.take(7) =~= mark);
        }
        if addr.take(7) == mark {
            assert(addr.take(7)[0] == 'q' && addr.take(7)[1] == 'u' && addr.take(7)[2] == 'i'
                && addr.take(7)[3] == 'c' && addr.take(7)[4] == ':' && addr.take(7)[5] == '/'
                && addr.take(7)[6] == '/');
        }
    }
    assert((mark + rest).take(7) =~= mark);
    assert((mark + rest).skip(7) =~= rest);
}

/// A receiver listens nowhere exactly if P2P is off, otherwise where it is told or
/// on an ephemeral local port, and over QUIC if asked for.
pub proof fn law_listening(no_p2p: bool, listen: Option<Seq<char>>, quic: bool)
    ensures
        listens_on(no_p2p, listen, quic) is None <==> no_p2p,
        listens_on(no_p2p, listen, quic) matches Some(addr) ==> {
            let place = match listen {
                Some(asked) => asked,
                None => seq!['1', '2', '7', '.', '0', '.', '0', '.', '1', ':', '0'],
            };
            &&& quic ==> asks_for_quic(addr) && without_quic(addr) == place
            &&& !quic ==> addr == place
        },
{
    reveal_strlit("quic://");
    reveal_strlit("127.0.0.1:0");
    reveal_strlit("quic://127.0.0.1:0");
    let mark = seq!['q', 'u', 'i', 'c', ':', '/', '/'];
    let local = seq!['1', '2', '7', '.', '0', '.', '0', '.', '1', ':', '0'];
    assert("quic://"@ =~= mark);
    assert("127.0.0.1:0"@ =~= local);
    assert("quic://127.0.0.1:0"@ =~= mark + local);
    law_quic_addresses(local, local);
    if let Some(asked) = listen {
        law_quic_addresses(asked, asked);
    }
}

/// A checksum is written with 16 hexadecimal digits, highest first, in lower case:
/// cutting off the last digit divides by 16, and the last digit is the remainder.
pub proof fn law_hexadecimal_digits(v: nat, n: nat)
    ensures
        hex_text(v, n).len() == n,
        n > 0 ==> hex_text(v, n).drop_last() == hex_text(v / 16, (n - 1) as nat),
        n > 0 ==> digit_value(hex_text(v, n).last()) == Some(v % 16),
        n > 0 ==> ('0' <= hex_text(v, n).last() <= '9' || 'a' <= hex_text(v, n).last() <= 'f'),
    decreases n,
{
    if n > 0 {
        law_hexadecimal_digits(v / 16, (n - 1) as nat);
        assert(hex_text(v, n).drop_last() =~= hex_text(v / 16, (n - 1) as nat));
    }
}

/// What each hexadecimal digit stands for, in either case.
pub proof fn law_digit_values(c: char)
    ensures
        digit_value(c) is Some <==> ('0' <= c <= '9' || 'a' <= c <= 'f' || 'A' <= c <= 'F'),
        '0' <= c <= '9' ==> digit_value(c) == Some((c as nat - 48) as nat),
        'a' <= c <= 'f' ==> digit_value(c) == Some((c as nat - 87) as nat),
        'A' <= c <= 'F' ==> digit_value(c) == Some((c as nat - 55) as nat),
{
}

/// A checksum is read digit by digit: one more digit multiplies by 16 and adds what
/// the digit stands for, and fails exactly if it stands for nothing or the number
/// is beyond 64 bits. A single plus sign in front changes nothing, and there must
/// be a digit.
pub proof fn law_checksums_are_read_by_digits(s: Seq<char>, c: char)
    requires
        s.len() > 0,
        s[0] != '+',
    ensures
        checksum_value(Seq::empty()) is None,
        checksum_value(seq!['+']) is None,
        checksum_value(seq!['+'] + s) == checksum_value(s),
        c != '+' ==> checksum_value(seq![c]) == (match digit_value(c) {
            Some(d) => Some(d as u64),
            None => None,
        }),
        checksum_value(s.push(c)) == (match (checksum_value(s), digit_value(c)) {
            (Some(v), Some(d)) => if 16 * v + d <= 0xFFFF_FFFF_FFFF_FFFF {
                Some((16 * v + d) as u64)
            } else {
                None
            },
            _ => None,
        }),
{
    assert(seq!['+'].skip(1) =~= Seq::<char>::empty());
    assert((seq!['+'] + s).skip(1) =~= s);
    assert(seq![c].drop_last() =~= Seq::<char>::empty());
    assert(s.push(c).drop_last() =~= s);
    reveal_with_fuel(digits_value, 2);
}

/// What a message says is what its fields hold.
pub proof fn law_messages_say_what_they_hold(m: OrbitMessage)
    ensures
        match m {
            OrbitMessage::Hello { session_id, role } => m@ == (MessageView::Hello {
                session_id,
                role,
            }),
            OrbitMessage::Meta { session_id, filename, size, symbol_size, k, checksum } => m@ == (
            MessageView::Meta {
                session_id,
                filename: filename@,
                size,
                symbol_size,
                k,
                checksum,
            }),
            OrbitMessage::Symbol { session_id, esi, data } => m@ == (MessageView::Symbol {
                session_id,
                esi,
                data: bytes_content(data),
            }),
            OrbitMessage::Done { session_id } => m@ == (MessageView::Done { session_id }),
            OrbitMessage::Ready { session_id } => m@ == (MessageView::Ready { session_id }),
            OrbitMessage::Direct { session_id, addr } => m@ == (MessageView::Direct {
                session_id,
                addr: addr@,
            }),
        },
{
}

/// An advertised address is the one that the listener is bound to, marked for QUIC
/// exactly if the listener was asked for QUIC.
pub proof fn law_advertising(asked: Seq<char>, local: Seq<char>)
    requires
        !asks_for_quic(local),
    ensures
        asks_for_quic(advertised_as(asked, local)) <==> asks_for_quic(asked),
        without_quic(advertised_as(asked, local)) == local,
        !asks_for_quic(asked) ==> advertised_as(asked, local) == local,
{
    law_quic_addresses(asked, local);
    reveal_strlit("quic://");
    assert("quic://"@ =~= seq!['q', 'u', 'i', 'c', ':', '/', '/']);
}

} // verus!
