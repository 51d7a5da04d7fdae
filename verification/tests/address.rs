//! Addresses of the direct path.
use orbit_transfer::address::{advertised, is_quic, listen_address, socket_part};

#[test]
fn quic_is_recognized_and_stripped() {
    assert!(is_quic("quic://127.0.0.1:0"));
    assert!(is_quic("quic://"));
    assert!(!is_quic("quic:/"));
    assert!(!is_quic("QUIC://127.0.0.1:0"));
    assert!(!is_quic("127.0.0.1:0"));
    assert_eq!(socket_part("quic://127.0.0.1:9"), "127.0.0.1:9");
    assert_eq!(socket_part("127.0.0.1:9"), "127.0.0.1:9");
    assert_eq!(socket_part("quic://"), "");
}

#[test]
fn advertised_address_keeps_the_transport() {
    assert_eq!(advertised("quic://0.0.0.0:0", "10.0.0.1:5"), "quic://10.0.0.1:5");
    assert_eq!(advertised("0.0.0.0:0", "10.0.0.1:5"), "10.0.0.1:5");
    let addr = advertised("quic://0.0.0.0:0", "10.0.0.1:5");
    assert!(is_quic(&addr));
    assert_eq!(socket_part(&addr), "10.0.0.1:5");
}

#[test]
fn listen_addresses() {
    let given = || Some("1.2.3.4:5".to_string());
    assert_eq!(listen_address(true, given(), true), None);
    assert_eq!(listen_address(false, given(), true), Some("quic://1.2.3.4:5".to_string()));
    assert_eq!(listen_address(false, given(), false), given());
    assert_eq!(listen_address(false, None, true), Some("quic://127.0.0.1:0".to_string()));
    assert_eq!(listen_address(false, None, false), Some("127.0.0.1:0".to_string()));
}
