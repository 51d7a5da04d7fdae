//! Wire protocol.
use bytes::{BufMut, Bytes, BytesMut};
use orbit_transfer::framing::{parse_datagram, FrameReader};
use orbit_transfer::wire::{
    OrbitMessage, ProtocolError, MAX_FRAME, ROLE_RECEIVER, ROLE_SENDER, TYPE_DIRECT, TYPE_DONE,
    TYPE_HELLO, TYPE_META, TYPE_READY, TYPE_SYMBOL,
};

fn samples() -> Vec<OrbitMessage> {
    vec![
        OrbitMessage::Hello {
            session_id: 42,
            role: ROLE_SENDER,
        },
        OrbitMessage::Meta {
            session_id: 42,
            filename: "video-4k.mp4".to_string(),
            size: 1_000_000_000,
            symbol_size: 65536,
            k: 15259,
            checksum: 0xDEADBEEF,
        },
        OrbitMessage::Symbol {
            session_id: 42,
            esi: 1234,
            data: Bytes::from(vec![0xAB; 4096]),
        },
        OrbitMessage::Done { session_id: 42 },
        OrbitMessage::Ready { session_id: 42 },
        OrbitMessage::Direct {
            session_id: 42,
            addr: "127.0.0.1:44321".to_string(),
        },
    ]
}

fn frame(ty: u8, payload: &[u8]) -> Vec<u8> {
    let mut f = vec![ty];
    f.extend_from_slice(&(payload.len() as u32).to_le_bytes());
    f.extend_from_slice(payload);
    f
}

#[test]
fn roundtrip_all_message_types() {
    for msg in samples() {
        let encoded = msg.encode();
        let decoded = OrbitMessage::decode(&encoded).unwrap();
        assert_eq!(decoded, msg);
    }
}

#[test]
fn parse_frame_handles_partial_data() {
    let mut full = OrbitMessage::Symbol {
        session_id: 1,
        esi: 2,
        data: Bytes::from(vec![7u8; 100]),
    }
    .encode();

    let mut partial = full.split_to(10);
    assert!(matches!(
        OrbitMessage::parse_frame(&mut partial).unwrap(),
        None
    ));
    partial.extend_from_slice(&full);
    assert!(matches!(
        OrbitMessage::parse_frame(&mut partial).unwrap(),
        Some(OrbitMessage::Symbol { .. })
    ));
}

#[test]
fn rejects_oversized_frame() {
    let mut buf = BytesMut::new();
    buf.put_u8(TYPE_SYMBOL);
    buf.put_u32_le(MAX_FRAME + 1);
    assert!(matches!(
        OrbitMessage::parse_frame(&mut buf),
        Err(ProtocolError::FrameTooLarge(_))
    ));
    assert_eq!(buf.len(), 5);
}

#[test]
fn frames_have_the_documented_layout() {
    let hello = OrbitMessage::Hello { session_id: 0x0102030405060708, role: ROLE_RECEIVER };
    assert_eq!(
        &hello.encode()[..],
        &[TYPE_HELLO, 9, 0, 0, 0, 8, 7, 6, 5, 4, 3, 2, 1, 2]
    );
    let meta = OrbitMessage::Meta {
        session_id: 1,
        filename: "é".to_string(),
        size: 2,
        symbol_size: 3,
        k: 4,
        checksum: 5,
    };
    let mut expected = vec![TYPE_META, 36, 0, 0, 0];
    expected.extend_from_slice(&[1, 0, 0, 0, 0, 0, 0, 0, 2, 0, 0xC3, 0xA9]);
    expected.extend_from_slice(&[2, 0, 0, 0, 0, 0, 0, 0, 3, 0, 0, 0, 4, 0, 0, 0]);
    expected.extend_from_slice(&[5, 0, 0, 0, 0, 0, 0, 0]);
    assert_eq!(meta.frame_bytes(), expected);
    let symbol = OrbitMessage::Symbol { session_id: 1, esi: 258, data: Bytes::from(vec![9, 8]) };
    assert_eq!(
        symbol.frame_bytes(),
        vec![TYPE_SYMBOL, 14, 0, 0, 0, 1, 0, 0, 0, 0, 0, 0, 0, 2, 1, 0, 0, 9, 8]
    );
    let direct = OrbitMessage::Direct { session_id: 1, addr: "a:1".to_string() };
    assert_eq!(
        direct.frame_bytes(),
        vec![TYPE_DIRECT, 13, 0, 0, 0, 1, 0, 0, 0, 0, 0, 0, 0, 3, 0, b'a', b':', b'1']
    );
    assert_eq!(
        OrbitMessage::Done { session_id: 1 }.frame_bytes(),
        vec![TYPE_DONE, 8, 0, 0, 0, 1, 0, 0, 0, 0, 0, 0, 0]
    );
    assert_eq!(
        OrbitMessage::Ready { session_id: 1 }.frame_bytes(),
        vec![TYPE_READY, 8, 0, 0, 0, 1, 0, 0, 0, 0, 0, 0, 0]
    );
}

#[test]
fn session_ids_and_clones() {
    for msg in samples() {
        assert_eq!(msg.session_id(), 42);
        assert_eq!(msg.clone(), msg);
    }
}

#[test]
fn truncated_messages_are_refused() {
    assert_eq!(OrbitMessage::decode(&[]), Err(ProtocolError::Truncated));
    assert_eq!(OrbitMessage::decode(&[1, 0, 0, 0]), Err(ProtocolError::Truncated));
    // A length that does not fit the frame.
    assert_eq!(
        OrbitMessage::decode(&[TYPE_DONE, 9, 0, 0, 0, 1, 0, 0, 0, 0, 0, 0, 0]),
        Err(ProtocolError::Truncated)
    );
    for (ty, short) in [
        (TYPE_HELLO, 8),
        (TYPE_META, 9),
        (TYPE_SYMBOL, 11),
        (TYPE_DONE, 7),
        (TYPE_READY, 7),
        (TYPE_DIRECT, 9),
    ] {
        assert_eq!(
            OrbitMessage::decode(&frame(ty, &vec![0; short])),
            Err(ProtocolError::Truncated)
        );
    }
    // A name that is longer than the rest of the message.
    let mut direct = vec![0; 8];
    direct.extend_from_slice(&[4, 0, b'a', b'b', b'c']);
    assert_eq!(
        OrbitMessage::decode(&frame(TYPE_DIRECT, &direct)),
        Err(ProtocolError::Truncated)
    );
    // Numbers that are missing behind a filename.
    for missing in 1..=24 {
        let mut meta = vec![0; 8];
        meta.extend_from_slice(&[1, 0, b'a']);
        meta.extend_from_slice(&vec![0; 24 - missing]);
        assert_eq!(
            OrbitMessage::decode(&frame(TYPE_META, &meta)),
            Err(ProtocolError::Truncated)
        );
    }
}

#[test]
fn names_must_be_utf8() {
    let mut direct = vec![0; 8];
    direct.extend_from_slice(&[2, 0, 0xC3, 0x28]);
    assert_eq!(
        OrbitMessage::decode(&frame(TYPE_DIRECT, &direct)),
        Err(ProtocolError::InvalidFilename)
    );
    let mut meta = vec![0; 8];
    meta.extend_from_slice(&[1, 0, 0xFF]);
    meta.extend_from_slice(&vec![0; 24]);
    assert_eq!(
        OrbitMessage::decode(&frame(TYPE_META, &meta)),
        Err(ProtocolError::InvalidFilename)
    );
}

#[test]
fn unknown_types_are_refused() {
    assert_eq!(
        OrbitMessage::decode(&frame(7, &[0; 40])),
        Err(ProtocolError::InvalidType(7))
    );
    let mut buf = BytesMut::from(&frame(0, &[1, 2, 3])[..]);
    assert_eq!(
        OrbitMessage::parse_frame(&mut buf),
        Err(ProtocolError::InvalidType(0))
    );
    // The refused frame is taken off the buffer.
    assert!(buf.is_empty());
}

#[test]
fn extra_bytes_behind_fixed_fields_are_tolerated() {
    assert_eq!(
        OrbitMessage::decode(&frame(TYPE_READY, &[5, 0, 0, 0, 0, 0, 0, 0, 1, 2, 3])),
        Ok(OrbitMessage::Ready { session_id: 5 })
    );
}

#[test]
fn largest_frame_is_waited_for() {
    let mut buf = BytesMut::new();
    buf.put_u8(TYPE_SYMBOL);
    buf.put_u32_le(MAX_FRAME);
    assert_eq!(OrbitMessage::parse_frame(&mut buf), Ok(None));
}

#[test]
fn overlong_names_do_not_survive() {
    let msg = OrbitMessage::Direct { session_id: 1, addr: "x".repeat(65536) };
    assert_eq!(
        OrbitMessage::decode(&msg.encode()),
        Ok(OrbitMessage::Direct { session_id: 1, addr: String::new() })
    );
    let longest = OrbitMessage::Direct { session_id: 1, addr: "x".repeat(65535) };
    assert_eq!(OrbitMessage::decode(&longest.encode()), Ok(longest));
}

#[test]
fn datagrams_hold_one_message() {
    let mut datagram = OrbitMessage::Ready { session_id: 9 }.frame_bytes();
    datagram.extend_from_slice(&[1, 2, 3]);
    assert_eq!(
        parse_datagram(&datagram),
        Ok(Some(OrbitMessage::Ready { session_id: 9 }))
    );
    assert_eq!(parse_datagram(&datagram[..12]), Ok(None));
    assert_eq!(
        parse_datagram(&frame(8, &[])),
        Err(ProtocolError::InvalidType(8))
    );
}

#[test]
fn streams_yield_messages_for_any_chunking() {
    let mut stream = Vec::new();
    for msg in samples() {
        stream.extend_from_slice(&msg.frame_bytes());
    }
    stream.extend_from_slice(&samples()[1].frame_bytes()[..20]);
    for chunk in [1usize, 3, 5, 64, 1000, 100_000] {
        let mut reader = FrameReader::new();
        let mut got = Vec::new();
        for piece in stream.chunks(chunk) {
            let pending = reader.pending_len();
            reader.push(piece);
            assert_eq!(reader.pending_len(), pending + piece.len());
            while let Some(msg) = reader.next_message().unwrap() {
                got.push(msg);
            }
        }
        assert_eq!(got, samples());
        assert_eq!(reader.pending_len(), 20);
    }
}
