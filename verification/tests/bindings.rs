//! Plain-value bindings.
use orbit_transfer::bindings::{parse_checksum, Decoder, Fountain};
use orbit_transfer::decoder::{DecoderError, SymbolError};
use orbit_transfer::encoder::source_count;
use orbit_transfer::precode::inputs_for;

/// A degree table that favours small degrees.
fn thresholds(l: usize) -> Vec<u64> {
    (0..=l as u64).map(|d| (1u64 << 53) - (1u64 << 53) / (d + 1) / (d + 1)).collect()
}

fn fountain(payload: &[u8], size: usize) -> Fountain {
    let l = inputs_for(source_count(payload.len(), size)).unwrap();
    Fountain::new(payload, size, thresholds(l)).unwrap()
}

#[test]
fn roundtrip_over_plain_values() {
    let payload: Vec<u8> = (0..500u32).map(|i| (i * i % 253) as u8).collect();
    let f = fountain(&payload, 32);
    assert_eq!(f.k(), 16);
    assert_eq!(f.l() as usize, inputs_for(16).unwrap());
    assert_eq!(f.payload_len(), 500);
    assert_eq!(f.symbol_size(), 32);
    let table = thresholds(f.l() as usize);
    let mut d = Decoder::new(500, 32, f.k(), &f.checksum_hex(), table).unwrap();
    let mut complete = false;
    for esi in 0..f.k() {
        assert!(!d.is_complete());
        complete = d.add_symbol(esi, &f.encode_symbol(esi).unwrap()).unwrap();
    }
    assert!(complete && d.is_complete());
    assert_eq!(d.received(), 16);
    assert_eq!(d.add_symbol(3, &[]), Ok(true));
    assert_eq!(d.received(), 17);
    assert_eq!(d.reconstruct(), Ok(payload));
}

#[test]
fn checksum_text() {
    let f = fountain(b"abc", 4);
    assert_eq!(f.checksum_hex(), "78af5f94892f3950");
    assert_eq!(f.checksum_hex(), format!("{:016x}", xxhash_rust::xxh3::xxh3_64(b"abc")));
    assert_eq!(parse_checksum("78af5f94892f3950"), Some(0x78af5f94892f3950));
    assert_eq!(parse_checksum("FFffFFffFFffFFff"), Some(u64::MAX));
    assert_eq!(parse_checksum("0000000000000000000001"), Some(1));
    for text in [
        "", "+", "-1", "g", "+a", "10000000000000000", " 1", "1 ", "0x1", "++1", "é", "0a9F",
    ] {
        assert_eq!(parse_checksum(text), u64::from_str_radix(text, 16).ok(), "{text:?}");
    }
}

#[test]
fn wrong_checksum_and_incomplete() {
    let f = fountain(b"hello", 2);
    let table = thresholds(f.l() as usize);
    let mut d = Decoder::new(5, 2, f.k(), "1", table).unwrap();
    assert!(matches!(
        d.reconstruct(),
        Err(DecoderError::Incomplete { resolved: 0, .. })
    ));
    assert_eq!(d.add_symbol(0, &[1]), Err(SymbolError::Size));
    for esi in 0..f.k() {
        d.add_symbol(esi, &f.encode_symbol(esi).unwrap()).unwrap();
    }
    assert!(matches!(
        d.reconstruct(),
        Err(DecoderError::ChecksumMismatch { expected: 1, .. })
    ));
}
