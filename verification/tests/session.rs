//! Transfer sessions, with relays and links in memory.
use bytes::Bytes;
use orbit_transfer::crypto::SessionCipher;
use orbit_transfer::decoder::DecoderError;
use orbit_transfer::encoder::source_count;
use orbit_transfer::framing::parse_datagram;
use orbit_transfer::precode::{inputs_for, s_for};
use orbit_transfer::receiver::{ReceiverError, ReceiverEvent, ReceiverSession};
use orbit_transfer::relay::RelayCore;
use orbit_transfer::soliton::SolitonSampler;
use orbit_transfer::sender::{
    any_path_alive, direct_outcome, dispatch, watch, DirectOutcome, SenderError, SenderEvent, SenderSession,
    SenderStep, WatchAction, STALL_TIMEOUT_NANOS,
};
use orbit_transfer::wire::{OrbitMessage, ROLE_RECEIVER, ROLE_SENDER};

/// The degree table over `k` inputs.
fn thresholds(k: usize) -> Vec<u64> {
    let c = 0.1f64;
    let delta = 0.05f64;
    if k <= 1 {
        return vec![9007199254740992];
    }
    let k_f = k as f64;
    let s = c * (k_f / delta).ln() * k_f.sqrt();
    let pivot = (k_f / s).round() as usize;
    let mut pdf = vec![0.0; k + 1];
    let mut z = 0.0;
    for d in 1..=k {
        let ideal = if d == 1 {
            1.0 / k_f
        } else {
            1.0 / (d * (d - 1)) as f64
        };
        let tau = if d < pivot {
            s / (d as f64 * k_f)
        } else if d == pivot {
            (s * (s / delta).ln()) / k_f
        } else {
            0.0
        };
        pdf[d] = ideal + tau;
        z += pdf[d];
    }
    let mut cdf = vec![0.0; k + 1];
    let mut cumulative = 0.0;
    for d in 1..=k {
        cumulative += pdf[d] / z;
        cdf[d] = cumulative;
    }
    cdf[k] = 1.0;
    cdf.into_iter().map(|p| (p * 9007199254740992.0).floor() as u64).collect()
}

fn payload(len: usize, m: usize) -> Vec<u8> {
    (0..len).map(|i| (i % m) as u8).collect()
}

fn sender(payload: &[u8], size: usize, secret: Option<&str>, relays: usize) -> SenderSession {
    named_sender("test.bin", payload, size, secret, relays)
}

fn named_sender(
    name: &str,
    payload: &[u8],
    size: usize,
    secret: Option<&str>,
    relays: usize,
) -> SenderSession {
    let l = inputs_for(source_count(payload.len(), size)).unwrap();
    let cipher = secret.map(SessionCipher::new);
    match SenderSession::new(77, name.to_string(), payload, size, thresholds(l), cipher, relays) {
        Ok(session) => session,
        Err(e) => panic!("{e:?}"),
    }
}

fn receiver(secret: Option<&str>, relays: usize, direct: bool) -> ReceiverSession {
    let mut r = ReceiverSession::new(77, secret.map(SessionCipher::new), relays).unwrap();
    assert!(!r.has_direct());
    if direct {
        r.expect_direct();
    }
    assert_eq!(r.has_direct(), direct);
    r
}

fn give(r: &mut ReceiverSession, event: ReceiverEvent) -> Result<bool, ReceiverError> {
    let table = match r.table_inputs(&event) {
        Some(l) => thresholds(l),
        None => Vec::new(),
    };
    r.on_event(event, table)
}

/// Emits the next symbol over a relay or the direct link.
fn emit(s: &mut SenderSession) -> (OrbitMessage, Option<usize>) {
    match s.next_step(true).unwrap() {
        SenderStep::Relay { msg, first } => {
            s.on_relay(true, true, 0).unwrap();
            (msg, Some(first))
        }
        SenderStep::Direct { msg } => {
            assert!(!s.on_direct(DirectOutcome::Queued));
            (msg, None)
        }
        SenderStep::Finished => panic!("finished"),
    }
}

/// Runs a transfer over relays in memory; symbols pass through as they come.
fn run(
    s: &mut SenderSession,
    r: &mut ReceiverSession,
    relays: &mut Vec<RelayCore>,
) -> Vec<u8> {
    for core in relays.iter_mut() {
        core.route(s.hello(), 1);
        core.route(r.hello(), 2);
    }
    let mut inbox: Vec<OrbitMessage> = Vec::new();
    for d in relays[0].route(s.meta(), 1) {
        inbox.push(parse_datagram(&d.frame).unwrap().unwrap());
    }
    loop {
        for msg in std::mem::take(&mut inbox) {
            if give(r, ReceiverEvent::Relay(msg)).unwrap() {
                let (payload, ready) = r.finish().unwrap().unwrap();
                assert_eq!(r.payload().unwrap().unwrap(), payload);
                for core in relays.iter_mut() {
                    for d in core.route(ready.clone(), 2) {
                        let msg = parse_datagram(&d.frame).unwrap().unwrap();
                        assert_eq!(watch(Some(&msg), false), WatchAction::ReportReady);
                        s.on_event(SenderEvent::Ready);
                    }
                }
                assert!(matches!(s.next_step(true), Ok(SenderStep::Finished)));
                return payload;
            }
        }
        let (msg, path) = emit(s);
        match path {
            Some(i) => {
                for d in relays[i].route(msg, 1) {
                    inbox.push(parse_datagram(&d.frame).unwrap().unwrap());
                }
            }
            None => assert!(!give(r, ReceiverEvent::Direct(msg)).unwrap_or(true)),
        }
    }
}

#[test]
fn e2e_transfer_through_relay() {
    let data = payload(4 * 1024 * 1024, 251);
    let mut s = sender(&data, 64 * 1024, None, 1);
    let mut r = receiver(None, 1, false);
    let mut relays = vec![RelayCore::new()];
    let got = run(&mut s, &mut r, &mut relays);
    assert_eq!(got, data, "received payload must match original");
    assert_eq!(r.filename(), Some("test.bin"));
    assert_eq!(s.filename(), "test.bin");
    assert!(s.symbols() >= s.k() as u64, "sender must emit at least K symbols");
    assert!(
        r.symbols() <= s.symbols(),
        "receiver cannot receive more symbols than sent"
    );
    let l = s.k() + s_for(s.k());
    assert!(
        r.symbols() <= l as u64,
        "lossless delivery must decode within the systematic phase (L = K + S symbols)"
    );
    assert_eq!(s.via_relay(), s.symbols());
    assert_eq!(s.via_direct(), 0);
    assert_eq!(s.bytes(), 4 * 1024 * 1024);
    assert_eq!(r.via_relay(), r.symbols());
    assert_eq!(r.bytes(), r.symbols() * 64 * 1024);
    assert_eq!(r.k(), Some(64));
}

#[test]
fn e2e_receiver_joins_after_sender() {
    let data = vec![0x5Au8; 512 * 1024];
    let mut s = named_sender("late.bin", &data, 8192, None, 1);
    let mut core = RelayCore::new();
    core.route(s.hello(), 1);
    core.route(s.meta(), 1);
    for _ in 0..data.len() / 8192 + 10 {
        let (msg, _) = emit(&mut s);
        assert!(core.route(msg, 1).is_empty());
    }
    let mut r = receiver(None, 1, false);
    let mut done = false;
    for d in core.route(r.hello(), 2) {
        let msg = parse_datagram(&d.frame).unwrap().unwrap();
        if give(&mut r, ReceiverEvent::Relay(msg)).unwrap() {
            done = true;
            break;
        }
    }
    assert!(done);
    assert_eq!(r.payload().unwrap().unwrap(), data, "received payload must match original");
    assert!(
        r.symbols() <= s.symbols(),
        "receiver cannot receive more symbols than sent"
    );
}

#[test]
fn e2e_encrypted_transfer() {
    let data = payload(1024 * 1024, 251);
    let secret = Some("correct horse battery staple");
    let mut s = named_sender("secret.bin", &data, 8 * 1024, secret, 1);
    let mut r = receiver(secret, 1, false);
    let mut relays = vec![RelayCore::new()];
    let got = run(&mut s, &mut r, &mut relays);
    assert_eq!(got, data, "decrypted payload must match original");
    assert_eq!(r.bytes(), r.symbols() * (8 * 1024 + 16));
}

#[test]
fn e2e_multi_relay_aggregation() {
    let data = payload(3 * 1024 * 1024, 89);
    let mut s = named_sender("multi.bin", &data, 16 * 1024, None, 2);
    let mut r = receiver(None, 2, false);
    let mut relays = vec![RelayCore::new(), RelayCore::new()];
    let got = run(&mut s, &mut r, &mut relays);
    assert_eq!(got, data, "received payload must match original");
    assert!(
        s.via_relay() >= 2,
        "bandwidth must be aggregated over both relays (got {})",
        s.via_relay()
    );
    assert!(
        r.via_relay() >= 2,
        "receiver must decode symbols coming from both relays (got {})",
        r.via_relay()
    );
    assert!(
        relays[0].symbols_relayed() > 0 && relays[1].symbols_relayed() > 0,
        "both relays must carry at least one symbol (a={}, b={})",
        relays[0].symbols_relayed(),
        relays[1].symbols_relayed()
    );
    assert_eq!(relays[0].symbols_relayed() + relays[1].symbols_relayed(), s.symbols());
}

#[test]
fn e2e_multipath_direct_and_relay() {
    let data = payload(16 * 1024 * 1024, 97);
    let mut s = named_sender("mp.bin", &data, 16 * 1024, None, 1);
    let mut r = receiver(None, 1, true);
    s.on_event(SenderEvent::Direct);
    give(&mut r, ReceiverEvent::Relay(s.meta())).unwrap();
    loop {
        let (msg, path) = emit(&mut s);
        let event = match path {
            Some(_) => ReceiverEvent::Relay(msg),
            None => ReceiverEvent::Direct(msg),
        };
        if give(&mut r, event).unwrap() {
            break;
        }
    }
    assert_eq!(r.payload().unwrap().unwrap(), data, "received payload must match original");
    assert!(s.via_direct() > 0, "P2P path must carry at least one symbol");
    assert!(s.via_relay() > 0, "relay path must carry at least one symbol");
    assert_eq!(
        s.via_direct() + s.via_relay(),
        s.symbols(),
        "every emitted symbol must have used exactly one path"
    );
    assert!(
        r.via_direct() > 0,
        "receiver must have decoded symbols from the direct path"
    );
    assert!(
        r.via_direct() <= s.via_direct(),
        "receiver cannot count more direct symbols than the sender sent"
    );
    assert_eq!(r.via_direct() + r.via_relay(), r.symbols());
}

#[test]
fn messages_of_a_session() {
    let data = payload(100, 7);
    let s = sender(&data, 10, None, 1);
    assert_eq!(s.hello(), OrbitMessage::Hello { session_id: 77, role: ROLE_SENDER });
    assert_eq!(
        s.meta(),
        OrbitMessage::Meta {
            session_id: 77,
            filename: "test.bin".to_string(),
            size: 100,
            symbol_size: 10,
            k: 10,
            checksum: xxhash_rust::xxh3::xxh3_64(&data),
        }
    );
    let r = receiver(None, 1, false);
    assert_eq!(r.hello(), OrbitMessage::Hello { session_id: 77, role: ROLE_RECEIVER });
    assert!(r.finish().is_none());
    assert_eq!(
        r.advertisement("a:1".to_string()),
        OrbitMessage::Direct { session_id: 77, addr: "a:1".to_string() }
    );
}

#[test]
fn sender_needs_a_relay() {
    let l = inputs_for(1).unwrap();
    assert!(matches!(
        SenderSession::new(1, String::new(), b"x", 4, thresholds(l), None, 0),
        Err(SenderError::NoRelay)
    ));
    assert!(ReceiverSession::new(1, None, 0).is_none());
}

#[test]
fn sender_without_paths_gives_up() {
    let mut s = sender(b"abc", 2, None, 2);
    assert!(matches!(s.next_step(false), Err(SenderError::AllRelaysUnreachable)));
    // A direct link is path enough.
    s.on_event(SenderEvent::Direct);
    assert!(matches!(s.next_step(false), Ok(SenderStep::Relay { first: 0, .. })));
    assert_eq!(s.on_relay(false, false, 0), Err(SenderError::AllRelaysUnreachable));
}

#[test]
fn blocked_sender_retries_then_stalls() {
    let mut s = sender(b"abc", 2, None, 3);
    for turn in 0..4usize {
        match s.next_step(true) {
            Ok(SenderStep::Relay { msg: OrbitMessage::Symbol { esi, .. }, first }) => {
                assert_eq!(esi, 0);
                assert_eq!(first, turn % 3);
            }
            _ => panic!("symbol expected"),
        }
        assert_eq!(s.on_relay(false, true, STALL_TIMEOUT_NANOS), Ok(()));
    }
    assert_eq!(s.symbols(), 0);
    assert_eq!(s.on_relay(false, true, STALL_TIMEOUT_NANOS + 1), Err(SenderError::Stalled));
}

#[test]
fn direct_link_falls_back() {
    let mut s = sender(&payload(40, 9), 4, None, 2);
    s.on_event(SenderEvent::Direct);
    emit(&mut s);
    // The first odd symbol goes direct; a full queue keeps the link.
    assert!(matches!(s.next_step(true), Ok(SenderStep::Direct { .. })));
    assert!(s.on_direct(DirectOutcome::Full));
    assert_eq!(s.on_relay(true, true, 0), Ok(()));
    emit(&mut s);
    assert!(matches!(s.next_step(true), Ok(SenderStep::Direct { .. })));
    // A dead link is given up.
    assert!(s.on_direct(DirectOutcome::Dead));
    assert_eq!(s.on_relay(true, true, 0), Ok(()));
    emit(&mut s);
    assert!(matches!(s.next_step(true), Ok(SenderStep::Relay { first: 0, .. })));
    assert_eq!(s.via_direct(), 0);
    assert_eq!(s.via_relay(), 5);
}

#[test]
fn dispatch_goes_round_from_the_first() {
    let yes = vec![true; 4];
    assert_eq!(dispatch(2, &yes, &yes), Some(2));
    assert_eq!(dispatch(2, &vec![true, true, false, true], &yes), Some(3));
    assert_eq!(dispatch(2, &vec![true, true, false, false], &yes), Some(0));
    assert_eq!(dispatch(2, &yes, &vec![false, true, false, false]), Some(1));
    assert_eq!(dispatch(2, &vec![true, false, true, false], &vec![false, true, false, true]), None);
    assert_eq!(dispatch(7, &yes, &yes), Some(3));
    assert_eq!(dispatch(7, &vec![true, true, true, false], &yes), Some(0));
    assert_eq!(dispatch(usize::MAX, &yes, &yes), Some(3));
    assert_eq!(dispatch(0, &vec![], &vec![]), None);
    assert_eq!(dispatch(5, &vec![], &vec![]), None);
    assert!(any_path_alive(&vec![false, true]));
    assert!(!any_path_alive(&vec![false, false]));
    assert!(!any_path_alive(&Vec::new()));
}

#[test]
fn direct_outcomes() {
    assert_eq!(direct_outcome(true, true), DirectOutcome::Queued);
    assert_eq!(direct_outcome(false, true), DirectOutcome::Full);
    assert_eq!(direct_outcome(false, false), DirectOutcome::Dead);
}

#[test]
fn watchers_decide() {
    let ready = OrbitMessage::Ready { session_id: 1 };
    let direct = OrbitMessage::Direct { session_id: 1, addr: "a".to_string() };
    assert_eq!(watch(Some(&ready), true), WatchAction::ReportReady);
    assert_eq!(watch(Some(&direct), false), WatchAction::Connect);
    assert_eq!(watch(Some(&direct), true), WatchAction::Ignore);
    assert_eq!(watch(Some(&OrbitMessage::Done { session_id: 1 }), false), WatchAction::Ignore);
    assert_eq!(watch(None, false), WatchAction::Stop);
}

#[test]
fn symbols_before_meta_wait() {
    let data = payload(300, 11);
    let mut s = sender(&data, 10, None, 1);
    let mut r = receiver(None, 1, true);
    for _ in 0..30 {
        let (msg, _) = emit(&mut s);
        assert_eq!(give(&mut r, ReceiverEvent::Direct(msg)), Ok(false));
    }
    assert!(r.payload().is_none());
    assert_eq!(r.k(), None);
    assert_eq!(r.filename(), None);
    assert_eq!(give(&mut r, ReceiverEvent::Relay(s.meta())), Ok(true));
    assert_eq!(r.payload().unwrap().unwrap(), data);
    assert_eq!(r.finish(), Some(Ok((data, OrbitMessage::Ready { session_id: 77 }))));
}

#[test]
fn ready_is_for_a_verified_payload() {
    let data = payload(30, 11);
    let mut s = sender(&data, 10, None, 1);
    let mut r = receiver(None, 1, false);
    assert_eq!(r.finish(), None);
    let OrbitMessage::Meta { session_id, filename, size, symbol_size, k, .. } = s.meta() else {
        panic!("meta");
    };
    let wrong = OrbitMessage::Meta { session_id, filename, size, symbol_size, k, checksum: 5 };
    give(&mut r, ReceiverEvent::Relay(wrong)).unwrap();
    assert!(matches!(
        r.finish(),
        Some(Err(DecoderError::Incomplete { resolved: 0, .. }))
    ));
    for _ in 0..k {
        let (msg, _) = emit(&mut s);
        give(&mut r, ReceiverEvent::Relay(msg)).unwrap();
    }
    assert!(matches!(
        r.finish(),
        Some(Err(DecoderError::ChecksumMismatch { expected: 5, .. }))
    ));
}

#[test]
fn symbols_of_another_size_are_kept_until_they_meet() {
    let data = payload(300, 11);
    let mut s = sender(&data, 10, None, 1);
    let mut r = receiver(None, 1, false);
    give(&mut r, ReceiverEvent::Relay(s.meta())).unwrap();
    let l = inputs_for(30).unwrap();
    let sampler = SolitonSampler::new(l, thresholds(l));
    let (esi, mixed) = (l as u32..)
        .map(|esi| (esi, sampler.get_neighbors(esi).1))
        .find(|(_, mixed)| mixed.len() == 2)
        .unwrap();
    let long = OrbitMessage::Symbol { session_id: 77, esi, data: Bytes::from(vec![1; 11]) };
    assert_eq!(give(&mut r, ReceiverEvent::Relay(long)), Ok(false));
    // Symbols go on counting until one resolves an input that it mixes.
    let mut last = Ok(false);
    for i in 0..30 {
        let (msg, _) = emit(&mut s);
        last = give(&mut r, ReceiverEvent::Relay(msg));
        if last.is_err() {
            assert_eq!(last, Err(ReceiverError::SymbolSize { esi: i, len: 10 }));
            break;
        }
        assert!(!mixed.contains(&(i as usize)));
        assert_eq!(last, Ok(false));
    }
    assert!(last.is_err());
}

#[test]
fn only_the_first_meta_counts() {
    let data = payload(30, 11);
    let mut s = sender(&data, 10, None, 1);
    let mut r = receiver(None, 1, false);
    // A description over the direct link is ignored.
    assert_eq!(give(&mut r, ReceiverEvent::Direct(s.meta())), Ok(false));
    assert_eq!(r.k(), None);
    assert_eq!(give(&mut r, ReceiverEvent::Relay(s.meta())), Ok(false));
    let (msg, _) = emit(&mut s);
    give(&mut r, ReceiverEvent::Relay(msg)).unwrap();
    let other = OrbitMessage::Meta {
        session_id: 77,
        filename: "other".to_string(),
        size: 5,
        symbol_size: 5,
        k: 1,
        checksum: 0,
    };
    assert_eq!(give(&mut r, ReceiverEvent::Relay(other)), Ok(false));
    assert_eq!(r.filename(), Some("test.bin"));
    assert_eq!(r.k(), Some(3));
    assert!(matches!(
        r.payload(),
        Some(Err(DecoderError::Incomplete { resolved: 1, .. }))
    ));
}

#[test]
fn receiver_refuses_what_does_not_fit() {
    let data = payload(30, 11);
    let mut s = sender(&data, 10, None, 1);
    let mut r = receiver(None, 1, false);
    let meta = |k: u32| OrbitMessage::Meta {
        session_id: 77,
        filename: "x".to_string(),
        size: 30,
        symbol_size: 10,
        k,
        checksum: 0,
    };
    assert_eq!(
        give(&mut r, ReceiverEvent::Relay(meta(0))),
        Err(ReceiverError::InvalidMeta)
    );
    give(&mut r, ReceiverEvent::Relay(s.meta())).unwrap();
    let short = OrbitMessage::Symbol { session_id: 77, esi: 0, data: Bytes::from(vec![1, 2]) };
    assert_eq!(
        give(&mut r, ReceiverEvent::Relay(short.clone())),
        Err(ReceiverError::SymbolSize { esi: 0, len: 2 })
    );
    let (msg, _) = emit(&mut s);
    give(&mut r, ReceiverEvent::Relay(msg)).unwrap();
    // A repeated symbol is ignored, whatever it holds.
    assert_eq!(give(&mut r, ReceiverEvent::Relay(short)), Ok(false));
    assert_eq!(
        give(&mut r, ReceiverEvent::Relay(OrbitMessage::Done { session_id: 77 })),
        Err(ReceiverError::SenderAborted)
    );
    assert_eq!(
        give(&mut r, ReceiverEvent::Relay(OrbitMessage::Ready { session_id: 77 })),
        Ok(false)
    );
}

#[test]
fn wrong_secret_is_noticed() {
    let data = payload(30, 11);
    let mut s = sender(&data, 10, Some("a"), 1);
    let mut r = receiver(Some("b"), 1, false);
    give(&mut r, ReceiverEvent::Relay(s.meta())).unwrap();
    let (msg, _) = emit(&mut s);
    assert_eq!(
        give(&mut r, ReceiverEvent::Relay(msg)),
        Err(ReceiverError::OpenFailed { esi: 0 })
    );
}

#[test]
fn closed_links_end_a_transfer() {
    let data = payload(30, 11);
    let s = sender(&data, 10, None, 2);
    let mut r = receiver(None, 2, true);
    assert!(r.has_direct());
    assert_eq!(give(&mut r, ReceiverEvent::RelayClosed), Ok(false));
    assert_eq!(r.relays_open(), 1);
    assert_eq!(
        give(&mut r, ReceiverEvent::RelayClosed),
        Err(ReceiverError::ClosedBeforeMeta)
    );
    assert_eq!(
        give(&mut r, ReceiverEvent::RelaysGone),
        Err(ReceiverError::ClosedBeforeEnd)
    );

    let mut r = receiver(None, 1, true);
    give(&mut r, ReceiverEvent::Relay(s.meta())).unwrap();
    assert_eq!(give(&mut r, ReceiverEvent::RelayClosed), Ok(false));
    assert_eq!(give(&mut r, ReceiverEvent::RelaysGone), Ok(false));
    assert_eq!(give(&mut r, ReceiverEvent::DirectClosed), Ok(false));
    assert!(!r.has_direct());
    assert_eq!(
        give(&mut r, ReceiverEvent::RelaysGone),
        Err(ReceiverError::ClosedBeforeEnd)
    );

    let mut r = receiver(None, 3, false);
    r.relay_drained();
    assert_eq!(r.relays_open(), 2);
}

#[test]
fn direct_link_gets_every_other_symbol() {
    let mut s = sender(&payload(4000, 251), 64, None, 3);
    s.on_event(SenderEvent::Direct);
    for esi in 0..300u32 {
        let (msg, relay) = emit(&mut s);
        assert!(matches!(msg, OrbitMessage::Symbol { esi: e, .. } if e == esi));
        let expected = if esi % 2 == 0 {
            Some((esi / 2 % 3) as usize)
        } else {
            None
        };
        assert_eq!(relay, expected);
    }
    assert_eq!(s.via_direct(), 150);
    assert_eq!(s.via_relay(), 150);
}
