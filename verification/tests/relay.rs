//! Relay routing.
use bytes::Bytes;
use orbit_transfer::framing::parse_datagram;
use orbit_transfer::relay::{
    Connection, ConnectionAction, ConnectionEvent, Delivery, RelayCore, MAX_BUFFERED_BYTES,
};
use orbit_transfer::wire::{OrbitMessage, ProtocolError, ROLE_RECEIVER, ROLE_SENDER};

const SENDER: u128 = 1;
const RECEIVER: u128 = 2;

fn symbol(id: u64, esi: u32) -> OrbitMessage {
    OrbitMessage::Symbol {
        session_id: id,
        esi,
        data: Bytes::from(vec![0xAB; 32]),
    }
}

fn hello(id: u64, role: u8) -> OrbitMessage {
    OrbitMessage::Hello { session_id: id, role }
}

fn to(conn: u128, msg: &OrbitMessage) -> Delivery {
    Delivery { to: conn, frame: msg.frame_bytes() }
}

fn kind(delivery: &Delivery) -> &'static str {
    match parse_datagram(&delivery.frame).unwrap().unwrap() {
        OrbitMessage::Hello { .. } => "Hello",
        OrbitMessage::Meta { .. } => "Meta",
        OrbitMessage::Symbol { .. } => "Symbol",
        OrbitMessage::Done { .. } => "Done",
        OrbitMessage::Ready { .. } => "Ready",
        OrbitMessage::Direct { .. } => "Direct",
    }
}

#[test]
fn buffers_symbols_until_receiver_registers() {
    let mut core = RelayCore::new();
    assert!(core.route(hello(1, ROLE_SENDER), SENDER).is_empty());
    for esi in 0..3u32 {
        assert!(core.route(symbol(1, esi), SENDER).is_empty());
    }
    // Receiver joins late: buffered symbols must be flushed in order.
    let flushed = core.route(hello(1, ROLE_RECEIVER), RECEIVER);
    assert_eq!(flushed.len(), 3, "no extra message must be queued");
    for esi in 0..3u32 {
        let got = &flushed[esi as usize];
        assert_eq!(kind(got), "Symbol", "buffered symbol {esi} must be flushed");
        assert_eq!(*got, to(RECEIVER, &symbol(1, esi)));
    }
    assert!(core.route(hello(1, ROLE_RECEIVER), RECEIVER).is_empty());
}

#[test]
fn forwards_ready_and_stops_symbols_after_ready() {
    let mut core = RelayCore::new();
    core.route(hello(7, ROLE_SENDER), SENDER);
    core.route(hello(7, ROLE_RECEIVER), RECEIVER);
    let out = core.route(symbol(7, 0), SENDER);
    assert_eq!(out, vec![to(RECEIVER, &symbol(7, 0))]);

    let ready = OrbitMessage::Ready { session_id: 7 };
    let out = core.route(ready.clone(), RECEIVER);
    assert_eq!(out, vec![to(SENDER, &ready)]);

    // After READY the receiver is done: further symbols must be dropped.
    assert!(
        core.route(symbol(7, 1), SENDER).is_empty(),
        "symbols must not be forwarded after READY"
    );
    assert!(core.route(hello(7, ROLE_RECEIVER), RECEIVER).is_empty());
}

#[test]
fn keeps_direct_advertisement_until_sender_registers() {
    let mut core = RelayCore::new();
    let direct = OrbitMessage::Direct { session_id: 3, addr: "127.0.0.1:9999".to_string() };
    core.route(hello(3, ROLE_RECEIVER), RECEIVER);
    assert!(core.route(direct.clone(), RECEIVER).is_empty());

    // The sender must receive the pending advertisement on registration.
    let out = core.route(hello(3, ROLE_SENDER), SENDER);
    assert_eq!(out, vec![to(SENDER, &direct)]);
    assert!(core.route(hello(3, ROLE_SENDER), SENDER).is_empty());
    // With the sender there, an advertisement passes at once.
    assert_eq!(core.route(direct.clone(), RECEIVER), vec![to(SENDER, &direct)]);
}

#[test]
fn counts_what_comes_in() {
    let mut core = RelayCore::with_throttle(Some(2000));
    assert_eq!(core.throttle_kbps(), Some(2000));
    assert_eq!(RelayCore::new().throttle_kbps(), None);
    for esi in 0..5 {
        core.route(symbol(1, esi), SENDER);
    }
    core.route(
        OrbitMessage::Meta {
            session_id: 1,
            filename: "f".to_string(),
            size: 1,
            symbol_size: 1,
            k: 1,
            checksum: 0,
        },
        SENDER,
    );
    assert_eq!(core.symbols_relayed(), 5);
    assert_eq!(core.bytes_relayed(), 160);
}

#[test]
fn meta_is_buffered_and_forwarded() {
    let meta = OrbitMessage::Meta {
        session_id: 4,
        filename: "f".to_string(),
        size: 1,
        symbol_size: 1,
        k: 1,
        checksum: 0,
    };
    let mut core = RelayCore::new();
    assert!(core.route(meta.clone(), SENDER).is_empty());
    assert!(core.route(symbol(4, 0), SENDER).is_empty());
    assert_eq!(
        core.route(hello(4, ROLE_RECEIVER), RECEIVER),
        vec![to(RECEIVER, &meta), to(RECEIVER, &symbol(4, 0))]
    );
    assert_eq!(core.route(meta.clone(), SENDER), vec![to(RECEIVER, &meta)]);
}

#[test]
fn full_buffer_drops_the_oldest() {
    let third = MAX_BUFFERED_BYTES / 3;
    let big = |esi: u32| OrbitMessage::Symbol {
        session_id: 1,
        esi,
        data: Bytes::from(vec![0u8; third]),
    };
    let mut core = RelayCore::new();
    for esi in 0..4 {
        core.route(big(esi), SENDER);
    }
    let flushed = core.route(hello(1, ROLE_RECEIVER), RECEIVER);
    let esis: Vec<u32> = flushed
        .iter()
        .map(|d| match parse_datagram(&d.frame[..]).unwrap().unwrap() {
            OrbitMessage::Symbol { esi, .. } => esi,
            _ => unreachable!(),
        })
        .collect();
    assert_eq!(esis, vec![2, 3]);
}

#[test]
fn ready_without_a_room_or_sender_is_dropped() {
    let mut core = RelayCore::new();
    assert!(core.route(OrbitMessage::Ready { session_id: 1 }, RECEIVER).is_empty());
    // No room was made: symbols are still kept.
    core.route(symbol(1, 0), SENDER);
    assert_eq!(core.route(hello(1, ROLE_RECEIVER), RECEIVER).len(), 1);
    assert!(core.route(OrbitMessage::Ready { session_id: 1 }, RECEIVER).is_empty());
}

#[test]
fn done_closes_the_room() {
    let mut core = RelayCore::new();
    core.route(hello(1, ROLE_RECEIVER), RECEIVER);
    assert!(core.route(OrbitMessage::Done { session_id: 1 }, SENDER).is_empty());
    assert!(core.route(symbol(1, 0), SENDER).is_empty());
    assert_eq!(core.route(hello(1, ROLE_RECEIVER), 3), vec![to(3, &symbol(1, 0))]);
}

#[test]
fn sessions_do_not_meet() {
    let mut core = RelayCore::new();
    core.route(hello(1, ROLE_RECEIVER), RECEIVER);
    core.route(hello(2, ROLE_RECEIVER), 5);
    assert_eq!(core.route(symbol(2, 0), SENDER), vec![to(5, &symbol(2, 0))]);
    assert_eq!(core.route(symbol(1, 0), SENDER), vec![to(RECEIVER, &symbol(1, 0))]);
}

#[test]
fn later_registration_takes_over() {
    let mut core = RelayCore::new();
    core.route(hello(1, ROLE_RECEIVER), RECEIVER);
    core.route(hello(1, ROLE_RECEIVER), 9);
    assert_eq!(core.route(symbol(1, 0), SENDER), vec![to(9, &symbol(1, 0))]);
    // An unknown role registers nobody.
    assert!(core.route(hello(1, 77), 10).is_empty());
    assert_eq!(core.route(symbol(1, 1), SENDER), vec![to(9, &symbol(1, 1))]);
}

#[test]
fn leaving_frees_the_place() {
    let mut core = RelayCore::new();
    core.route(hello(1, ROLE_SENDER), SENDER);
    core.route(hello(1, ROLE_RECEIVER), RECEIVER);
    core.leave_room(1, RECEIVER);
    // The receiver is gone: symbols are kept again.
    assert!(core.route(symbol(1, 0), SENDER).is_empty());
    core.leave_room(1, SENDER);
    assert_eq!(core.route(hello(1, ROLE_RECEIVER), 4), vec![to(4, &symbol(1, 0))]);
    // Someone else's leaving changes nothing.
    core.leave_room(1, SENDER);
    core.leave_room(99, 4);
    assert_eq!(core.route(symbol(1, 1), SENDER), vec![to(4, &symbol(1, 1))]);
}

#[test]
fn empty_room_is_given_up() {
    let mut core = RelayCore::new();
    core.route(hello(1, ROLE_SENDER), SENDER);
    core.route(hello(1, ROLE_RECEIVER), RECEIVER);
    core.route(OrbitMessage::Ready { session_id: 1 }, RECEIVER);
    core.leave_room(1, RECEIVER);
    core.leave_room(1, SENDER);
    // The room, and that its receiver was done, is forgotten.
    core.route(hello(1, ROLE_RECEIVER), RECEIVER);
    assert_eq!(core.route(symbol(1, 0), SENDER).len(), 1);
}

#[test]
fn connection_events() {
    let mut core = RelayCore::new();
    let mut receiver = Connection::new(RECEIVER);
    let mut sender = Connection::new(SENDER);
    assert!(matches!(
        core.on_event(&mut receiver, ConnectionEvent::Binary(hello(1, ROLE_RECEIVER).frame_bytes())),
        ConnectionAction::Deliver(out) if out.is_empty()
    ));
    match core.on_event(&mut sender, ConnectionEvent::Binary(symbol(1, 0).frame_bytes())) {
        ConnectionAction::Deliver(out) => assert_eq!(out, vec![to(RECEIVER, &symbol(1, 0))]),
        _ => unreachable!(),
    }
    assert!(matches!(
        core.on_event(&mut sender, ConnectionEvent::Binary(vec![1, 2])),
        ConnectionAction::Deliver(out) if out.is_empty()
    ));
    assert!(matches!(
        core.on_event(&mut sender, ConnectionEvent::Ping(vec![1, 2])),
        ConnectionAction::Pong(p) if p == vec![1, 2]
    ));
    assert!(matches!(
        core.on_event(&mut sender, ConnectionEvent::Other),
        ConnectionAction::Deliver(out) if out.is_empty()
    ));
    // A message that cannot be read ends the connection but keeps its place.
    assert!(matches!(
        core.on_event(&mut receiver, ConnectionEvent::Binary(vec![9, 0, 0, 0, 0])),
        ConnectionAction::Fail(ProtocolError::InvalidType(9))
    ));
    assert_eq!(core.route(symbol(1, 1), SENDER).len(), 1);
    assert!(matches!(
        core.on_event(&mut receiver, ConnectionEvent::Close),
        ConnectionAction::Close
    ));
    assert!(core.route(symbol(1, 2), SENDER).is_empty());
    assert!(matches!(
        core.on_event(&mut sender, ConnectionEvent::Ended),
        ConnectionAction::Stop
    ));
    assert_eq!(core.route(hello(1, ROLE_RECEIVER), 7), vec![to(7, &symbol(1, 2))]);
}

#[test]
fn relay_knows_who_has_a_place() {
    let mut core = RelayCore::new();
    assert!(!core.holds(SENDER));
    core.route(hello(1, ROLE_SENDER), SENDER);
    core.route(hello(2, ROLE_RECEIVER), RECEIVER);
    core.route(hello(3, ROLE_SENDER), SENDER);
    assert!(core.holds(SENDER) && core.holds(RECEIVER) && !core.holds(9));
    core.leave_room(1, SENDER);
    assert!(core.holds(SENDER));
    core.route(hello(3, ROLE_SENDER), 9);
    assert!(!core.holds(SENDER) && core.holds(9));
    core.route(OrbitMessage::Done { session_id: 2 }, SENDER);
    assert!(!core.holds(RECEIVER));
}
