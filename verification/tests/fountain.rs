//! Fountain codec: precode, sampler, encoder and decoder.
use orbit_transfer::decoder::{DecoderError, FountainDecoder, SymbolError};
use orbit_transfer::encoder::{source_count, EncodedSymbol, FountainEncoder};
use orbit_transfer::precode::{
    binomial, build_precoded, h_for, hdpc_found, hdpc_neighbors, inputs_for, precode_neighbors,
    s_for,
};
use orbit_transfer::simd::{xor_inplace, xor_into};
use orbit_transfer::soliton::SolitonSampler;
use rand::seq::SliceRandom;
use rand::{thread_rng, Rng, SeedableRng};
use rand_chacha::ChaCha8Rng;

/// The Robust Soliton cumulative distribution over `k` inputs.
fn robust_soliton_cdf(k: usize) -> Vec<f64> {
    let c = 0.1f64;
    let delta = 0.05f64;
    if k <= 1 {
        return vec![1.0];
    }
    let k_f = k as f64;
    let s = c * (k_f / delta).ln() * k_f.sqrt();
    let pivot = (k_f / s).round() as usize;
    let mut pdf = vec![0.0; k + 1];
    let mut z = 0.0;
    for d in 1..=k {
        let ideal = if d == 1 {
            1.0 / k_f
        } else {
            1.0 / (d * (d - 1)) as f64
        };
        let tau = if d < pivot {
            s / (d as f64 * k_f)
        } else if d == pivot {
            (s * (s / delta).ln()) / k_f
        } else {
            0.0
        };
        pdf[d] = ideal + tau;
        z += pdf[d];
    }
    let mut cdf = vec![0.0; k + 1];
    let mut cumulative = 0.0;
    for d in 1..=k {
        cumulative += pdf[d] / z;
        cdf[d] = cumulative;
    }
    cdf[k] = 1.0;
    cdf
}

/// The degree table over `k` inputs.
fn thresholds(k: usize) -> Vec<u64> {
    robust_soliton_cdf(k)
        .into_iter()
        .map(|p| (p * 9007199254740992.0).floor() as u64)
        .collect()
}

fn encoder_of(payload: &[u8], symbol_size: usize) -> FountainEncoder {
    let l = inputs_for(source_count(payload.len(), symbol_size)).unwrap();
    FountainEncoder::new(payload, symbol_size, thresholds(l))
}

fn decoder_for(encoder: &FountainEncoder) -> FountainDecoder {
    FountainDecoder::new(
        encoder.payload_len(),
        encoder.symbol_size(),
        encoder.k(),
        encoder.checksum(),
        thresholds(encoder.l()),
    )
}

fn varied(len: usize) -> Vec<u8> {
    (0..len).map(|i| ((i * 131 + i / 251) % 251) as u8).collect()
}

#[test]
fn check_count_is_reasonable() {
    assert_eq!(s_for(1), 2);
    assert_eq!(s_for(256), 12);
    assert_eq!(s_for(16384), 173);
}

#[test]
fn hdpc_count_follows_binomial_rule() {
    // C(H, H/2) >= K + S must hold for the chosen H.
    for k in [2, 50, 256, 1000, 4096, 16384] {
        let s = s_for(k);
        let h = h_for(k);
        assert!(
            binomial(h, h / 2) >= (k + s) as u128,
            "k={k}: H={h} must satisfy C(H,H/2) >= K+S={}",
            k + s
        );
    }
}

#[test]
fn hdpc_count_is_the_least() {
    for k in [1, 2, 3, 50, 256, 1000, 4096, 16384] {
        let h = h_for(k);
        assert!(h == 1 || binomial(h - 1, (h - 1) / 2) < (k + s_for(k)) as u128);
    }
    assert_eq!(h_for(1), 3);
    assert_eq!(h_for(256), 11);
    assert_eq!(binomial(11, 5), 462);
    assert_eq!(binomial(6, 0), 1);
    assert_eq!(binomial(60, 30), 118264581564861424);
}

#[test]
fn neighbors_are_in_range_and_deduped() {
    let k = 100;
    let s = s_for(k);
    for i in 0..s {
        let n = precode_neighbors(k, s, i);
        assert!(n.iter().all(|&x| x < k));
        let mut sorted = n.clone();
        sorted.dedup();
        assert_eq!(n.len(), sorted.len(), "no duplicates");
    }
}

#[test]
fn ldpc_neighbors_exact() {
    assert_eq!(precode_neighbors(10, 4, 1), vec![1, 2, 5, 9]);
    assert_eq!(precode_neighbors(1, 2, 0), vec![0]);
    assert_eq!(precode_neighbors(1, 2, 1), vec![0]);
    assert_eq!(precode_neighbors(5, 10, 4), vec![0, 4]);
    assert_eq!(precode_neighbors(5, 10, 7), vec![2, 3]);
}

#[test]
fn hdpc_neighbors_dense_and_in_range() {
    let k = 256;
    let s = s_for(k);
    let h = h_for(k);
    for i in 0..h {
        let n = hdpc_neighbors(k, s, h, i);
        assert!(n.iter().all(|&x| x < k + s), "HDPC must reference precoded inputs");
        assert!(
            n.len() >= (k + s) / 4,
            "HDPC check must be dense ({} of {})",
            n.len(),
            k + s
        );
        let mut sorted = n.clone();
        sorted.dedup();
        assert_eq!(n.len(), sorted.len(), "no duplicates");
    }
}

#[test]
fn hdpc_neighbors_follow_the_generator() {
    let (k, s, h) = (20usize, s_for(20), h_for(20));
    let l = k + s;
    assert!(hdpc_found(l, h));
    for i in 0..h {
        let seed = (i as u64) ^ 0x9E3779B97F4A7C15 ^ (l as u64).wrapping_mul(0x85EBCA6B);
        let mut rng = ChaCha8Rng::seed_from_u64(seed);
        let mut selected = vec![false; l];
        let mut count = 0;
        while count < (l as f64 * 0.5) as usize + 1 {
            let idx = rng.gen_range(0..l);
            if !selected[idx] {
                selected[idx] = true;
                count += 1;
            }
        }
        let expected: Vec<usize> = (0..l).filter(|&j| selected[j]).collect();
        assert_eq!(hdpc_neighbors(k, s, h, i), expected);
    }
}

#[test]
fn precoded_checks_cancel() {
    let source: Vec<Vec<u8>> = (0..6u8).map(|i| vec![i * 7 + 1, 255 - i, i * i]).collect();
    let (s, h) = (s_for(6), h_for(6));
    let all = build_precoded(&source, s, h, 3);
    assert_eq!(all.len(), 6 + s + h);
    assert_eq!(&all[..6], &source[..]);
    for i in 0..s {
        let mut sum = all[6 + i].clone();
        for n in precode_neighbors(6, s, i) {
            xor_inplace(&mut sum, &all[n]);
        }
        assert_eq!(sum, vec![0, 0, 0]);
    }
    for i in 0..h {
        let mut sum = all[6 + s + i].clone();
        for n in hdpc_neighbors(6, s, h, i) {
            xor_inplace(&mut sum, &all[n]);
        }
        assert_eq!(sum, vec![0, 0, 0]);
    }
}

#[test]
fn total_inputs_of_source_counts() {
    assert_eq!(inputs_for(1), Some(1 + 2 + 3));
    assert_eq!(inputs_for(256), Some(256 + 12 + 11));
    assert_eq!(inputs_for(usize::MAX), None);
}

#[test]
fn test_xor_inplace() {
    let mut a = vec![0b10101010u8; 128];
    let b = vec![0b01010101u8; 128];
    xor_inplace(&mut a, &b);
    assert!(a.iter().all(|&byte| byte == 0b11111111));
}

#[test]
fn xor_into_overwrites() {
    let mut dst = vec![9u8; 5];
    xor_into(&mut dst, &[1, 2, 3, 4, 5], &[5, 4, 3, 2, 1]);
    assert_eq!(dst, vec![4, 6, 0, 6, 4]);
}

#[test]
fn test_soliton_reproducibility() {
    let sampler = SolitonSampler::new(100, thresholds(100));
    let (deg1, n1) = sampler.get_neighbors(150);
    let (deg2, n2) = sampler.get_neighbors(150);
    assert_eq!(deg1, deg2);
    assert_eq!(n1, n2);
}

#[test]
fn test_systematic_esi() {
    let sampler = SolitonSampler::new(10, thresholds(10));
    for esi in 0..10 {
        let (deg, neighbors) = sampler.get_neighbors(esi);
        assert_eq!(deg, 1);
        assert_eq!(neighbors, vec![esi as usize]);
    }
}

#[test]
fn sampler_inverts_the_distribution() {
    let k = 64usize;
    let cdf = robust_soliton_cdf(k);
    let sampler = SolitonSampler::new(k, thresholds(k));
    for esi in 64..600u32 {
        let mut rng = ChaCha8Rng::seed_from_u64((esi as u64) ^ 0x9E3779B97F4A7C15);
        let u: f64 = rng.gen();
        let degree = (1..=k).find(|&d| u <= cdf[d]).unwrap_or(1);
        let mut expected = Vec::new();
        while expected.len() < degree {
            let idx = rng.gen_range(0..k);
            if !expected.contains(&idx) {
                expected.push(idx);
            }
        }
        expected.sort_unstable();
        assert!(sampler.neighbors_found(esi));
        assert_eq!(sampler.get_neighbors(esi), (degree, expected.clone()));
        assert_eq!(sampler.try_get_neighbors(esi), Some((degree, expected)));
    }
}

#[test]
fn sampler_of_one_input() {
    let sampler = SolitonSampler::new(1, thresholds(1));
    assert_eq!(sampler.get_neighbors(7), (1, vec![0]));
}

#[test]
fn test_fountain_encoder_basic() {
    let payload = b"Hello, High-Performance World! Orbit-Transfer Fountain Engine.";
    let encoder = encoder_of(payload, 16);
    assert!(encoder.k() > 0);
    assert!(encoder.l() >= encoder.k());

    let sym0 = encoder.encode_symbol(0);
    assert_eq!(sym0.esi, 0);
    assert_eq!(sym0.symbol_size, 16);
}

#[test]
fn systematic_symbols_are_the_payload() {
    let payload = varied(50);
    let encoder = encoder_of(&payload, 16);
    assert_eq!(encoder.k(), 4);
    assert_eq!(encoder.payload_len(), 50);
    assert_eq!(encoder.symbol_size(), 16);
    assert_eq!(encoder.encode_symbol(0).data, payload[..16].to_vec());
    assert_eq!(encoder.encode_symbol(2).data, payload[32..48].to_vec());
    let mut last = payload[48..].to_vec();
    last.resize(16, 0);
    assert_eq!(encoder.encode_symbol(3).data, last);
}

#[test]
fn repair_symbols_are_sums_of_inputs() {
    let payload = varied(300);
    let encoder = encoder_of(&payload, 10);
    let l = encoder.l();
    let sampler = SolitonSampler::new(l, thresholds(l));
    let inputs: Vec<Vec<u8>> = (0..l as u32).map(|e| encoder.encode_symbol(e).data).collect();
    for esi in l as u32..l as u32 + 50 {
        let mut sum = vec![0u8; 10];
        for n in sampler.get_neighbors(esi).1 {
            xor_inplace(&mut sum, &inputs[n]);
        }
        assert_eq!(encoder.try_encode_symbol(esi).unwrap().data, sum);
    }
}

#[test]
fn checksum_is_xxh3() {
    let encoder = encoder_of(b"abc", 2);
    assert_eq!(encoder.checksum(), xxhash_rust::xxh3::xxh3_64(b"abc"));
    assert_eq!(encoder.checksum(), 0x78af5f94892f3950);
}

#[test]
fn empty_payload_has_one_block() {
    let encoder = encoder_of(b"", 8);
    assert_eq!(encoder.k(), 1);
    assert_eq!(encoder.encode_symbol(0).data, vec![0; 8]);
    let mut decoder = decoder_for(&encoder);
    assert!(decoder.add_symbol(encoder.encode_symbol(0)));
    assert_eq!(decoder.reconstruct(), Ok(Vec::new()));
}

#[test]
fn test_fountain_end_to_end_lossless() {
    let payload =
        b"Orbit-Transfer rateless fountain code test payload for ultra-fast transfers!".to_vec();
    let symbol_size = 12;
    let encoder = encoder_of(&payload, symbol_size);
    let l = encoder.l();

    let mut decoder = decoder_for(&encoder);

    // Feed the full systematic phase (sources + precode checks).
    for esi in 0..l as u32 {
        let sym = encoder.encode_symbol(esi);
        decoder.add_symbol(sym);
    }

    assert!(decoder.is_complete());
    let recovered = decoder.reconstruct().unwrap();
    assert_eq!(recovered, payload);
}

#[test]
fn test_fountain_end_to_end_with_packet_loss() {
    let payload = vec![0x42u8; 10_000]; // 10 KB payload
    let symbol_size = 100;
    let encoder = encoder_of(&payload, symbol_size);
    let l = encoder.l();

    let mut decoder = decoder_for(&encoder);

    // Generate a pool of 2L symbols and shuffle it.
    let mut symbols: Vec<_> = (0..(l * 2) as u32)
        .map(|esi| encoder.encode_symbol(esi))
        .collect();
    let mut rng = thread_rng();
    symbols.shuffle(&mut rng);

    for sym in symbols {
        if decoder.add_symbol(sym) {
            break;
        }
    }

    assert!(decoder.is_complete());
    let recovered = decoder.reconstruct().unwrap();
    assert_eq!(recovered, payload);
}

#[test]
fn test_precoding_reduces_overhead_under_loss() {
    // With 5% loss, the precoded decoder must complete well below 1.5L
    // symbols (plain LT codes stall around 1.3x at this K).
    let payload = vec![0x7Fu8; 32 * 1024];
    let symbol_size = 128;
    let encoder = encoder_of(&payload, symbol_size);
    let l = encoder.l();

    let mut decoder = decoder_for(&encoder);

    let mut received = 0usize;
    let mut esi = 0u32;
    loop {
        if esi % 20 == 19 {
            esi += 1; // simulate 5% loss
            continue;
        }
        let sym = encoder.encode_symbol(esi);
        received += 1;
        if decoder.add_symbol(sym) {
            break;
        }
        esi += 1;
    }

    assert!(decoder.is_complete());
    assert!(
        received <= l + l / 5,
        "precoded decoder should finish within 1.2L symbols, used {received}/{l}"
    );
    assert_eq!(decoder.reconstruct().unwrap(), payload);
}

#[test]
fn source_symbols_alone_complete() {
    let payload = varied(999);
    let encoder = encoder_of(&payload, 20);
    let mut decoder = decoder_for(&encoder);
    let mut esis: Vec<u32> = (0..encoder.k() as u32).collect();
    esis.reverse();
    for esi in esis {
        assert!(!decoder.is_complete());
        decoder.add_symbol(encoder.encode_symbol(esi));
    }
    assert!(decoder.is_complete());
    assert_eq!(decoder.resolved_count(), encoder.l());
    assert_eq!(decoder.reconstruct(), Ok(payload));
}

#[test]
fn repair_symbols_alone_complete() {
    let payload = varied(3000);
    let encoder = encoder_of(&payload, 30);
    let l = encoder.l() as u32;
    let mut decoder = decoder_for(&encoder);
    let mut esi = l;
    while !decoder.add_symbol(encoder.encode_symbol(esi)) {
        esi += 1;
        assert!(esi < 20 * l, "repair symbols must complete the payload");
    }
    assert_eq!(decoder.reconstruct(), Ok(payload));
}

#[test]
fn order_and_duplicates_do_not_matter() {
    let payload = varied(700);
    let encoder = encoder_of(&payload, 16);
    let l = encoder.l() as u32;
    let esis: Vec<u32> = (0..l + 40).filter(|e| e % 3 != 1).collect();
    let mut forward = decoder_for(&encoder);
    for &esi in &esis {
        forward.add_symbol(encoder.encode_symbol(esi));
        forward.add_symbol(encoder.encode_symbol(esi));
    }
    let mut backward = decoder_for(&encoder);
    for &esi in esis.iter().rev() {
        backward.add_symbol(encoder.encode_symbol(esi));
    }
    assert_eq!(forward.resolved_count(), backward.resolved_count());
    assert_eq!(forward.is_complete(), backward.is_complete());
    assert_eq!(forward.reconstruct(), backward.reconstruct());
}

#[test]
fn fewer_symbols_resolve_no_more() {
    let payload = varied(700);
    let encoder = encoder_of(&payload, 16);
    let mut some = decoder_for(&encoder);
    let mut last = 0;
    for esi in (0..encoder.l() as u32 * 2).step_by(5) {
        some.add_symbol(encoder.encode_symbol(esi));
        assert!(some.resolved_count() >= last);
        last = some.resolved_count();
    }
}

#[test]
fn incomplete_decoder_says_so() {
    let payload = varied(100);
    let encoder = encoder_of(&payload, 10);
    let mut decoder = decoder_for(&encoder);
    assert_eq!(decoder.k(), 10);
    assert_eq!(decoder.l(), encoder.l());
    assert_eq!(decoder.symbol_size(), 10);
    assert_eq!(decoder.try_add_symbol(encoder.encode_symbol(3)), Ok(false));
    assert!(decoder.ignores_symbol(3));
    assert!(!decoder.ignores_symbol(4));
    assert_eq!(
        decoder.reconstruct(),
        Err(DecoderError::Incomplete { resolved: 1, total_required: encoder.l() })
    );
}

#[test]
fn wrong_checksum_is_reported() {
    let payload = varied(100);
    let encoder = encoder_of(&payload, 10);
    let mut decoder =
        FountainDecoder::try_new(100, 10, encoder.k(), 1234, thresholds(encoder.l())).unwrap();
    for esi in 0..10 {
        decoder.add_symbol(encoder.encode_symbol(esi));
    }
    assert_eq!(
        decoder.reconstruct(),
        Err(DecoderError::ChecksumMismatch { expected: 1234, got: encoder.checksum() })
    );
}

#[test]
fn tampered_symbol_is_caught_by_the_checksum() {
    let payload = varied(100);
    let encoder = encoder_of(&payload, 10);
    let mut decoder = decoder_for(&encoder);
    for esi in 0..10 {
        let mut sym = encoder.encode_symbol(esi);
        if esi == 4 {
            sym.data[0] ^= 1;
        }
        decoder.add_symbol(sym);
    }
    assert!(matches!(
        decoder.reconstruct(),
        Err(DecoderError::ChecksumMismatch { .. })
    ));
}

#[test]
fn encoder_without_draw_limit_matches() {
    let payload = varied(64);
    let l = inputs_for(source_count(64, 8)).unwrap();
    let encoder = FountainEncoder::try_new(&payload, 8, thresholds(l)).unwrap();
    assert_eq!(
        encoder.try_encode_symbol(1),
        Some(EncodedSymbol { esi: 1, symbol_size: 8, data: payload[8..16].to_vec() })
    );
}

#[test]
fn fresh_decoder_has_nothing() {
    for len in [0, 1, 300, 5000] {
        let encoder = encoder_of(&varied(len), 64);
        let decoder = decoder_for(&encoder);
        assert_eq!(decoder.resolved_count(), 0);
        assert!(!decoder.is_complete());
    }
}

#[test]
fn ldpc_check_fills_a_gap() {
    let payload = varied(3000);
    let encoder = encoder_of(&payload, 64);
    let k = encoder.k();
    for j in [0, 1, 9, 10, 31, k - 1] {
        let mut decoder = decoder_for(&encoder);
        for esi in (0..k).filter(|&i| i != j) {
            assert!(!decoder.add_symbol(encoder.encode_symbol(esi as u32)));
        }
        let check = (k + j % s_for(k)) as u32;
        assert!(decoder.add_symbol(encoder.encode_symbol(check)), "{j}");
        assert_eq!(decoder.resolved_count(), decoder.l());
        assert_eq!(decoder.reconstruct().unwrap(), payload);
    }
}

#[test]
fn too_few_symbols_never_complete() {
    let encoder = encoder_of(&varied(3000), 64);
    let k = encoder.k() as u32;
    for start in [0, 7, k, 1000, 1_000_000] {
        let mut decoder = decoder_for(&encoder);
        for esi in start..start + k - 1 {
            assert!(!decoder.add_symbol(encoder.encode_symbol(esi)));
            assert!(!decoder.add_symbol(encoder.encode_symbol(esi)));
        }
        assert!(decoder.resolved_count() < decoder.l());
    }
}

#[test]
fn progress_is_kept_whatever_comes() {
    let encoder = encoder_of(&varied(2000), 32);
    let mut decoder = decoder_for(&encoder);
    let mut rng = ChaCha8Rng::seed_from_u64(5);
    let mut before = 0;
    for _ in 0..400 {
        let data: Vec<u8> = (0..32).map(|_| rng.gen()).collect();
        let esi = rng.gen_range(0..500);
        let was_complete = decoder.is_complete();
        let complete = decoder.add_symbol(EncodedSymbol { esi, symbol_size: 32, data });
        assert!(decoder.resolved_count() >= before);
        assert!(decoder.resolved_count() <= decoder.l());
        assert_eq!(complete, decoder.resolved_count() == decoder.l());
        assert!(complete || !was_complete);
        before = decoder.resolved_count();
    }
}

/// The first repair symbol that mixes `n` inputs, and those inputs.
fn repair_of(l: usize, n: usize) -> (u32, Vec<usize>) {
    let sampler = SolitonSampler::new(l, thresholds(l));
    (l as u32..)
        .map(|esi| (esi, sampler.get_neighbors(esi).1))
        .find(|(_, mixed)| mixed.len() == n)
        .unwrap()
}

fn sized(esi: u32, len: usize) -> EncodedSymbol {
    EncodedSymbol { esi, symbol_size: 16, data: vec![7; len] }
}

#[test]
fn symbol_of_another_size_is_kept() {
    let encoder = encoder_of(&varied(800), 16);
    let (esi, mixed) = repair_of(encoder.l(), 3);
    for len in [0, 15, 17] {
        let mut decoder = decoder_for(&encoder);
        assert!(!decoder.add_symbol(sized(esi, len)));
        assert_eq!(decoder.resolved_count(), 0);
        // It came before, whatever its size.
        assert!(decoder.ignores_symbol(esi));
        assert!(!decoder.add_symbol(encoder.encode_symbol(esi)));
        let apart = (0..encoder.k()).find(|i| !mixed.contains(i)).unwrap() as u32;
        assert_eq!(decoder.try_add_symbol(encoder.encode_symbol(apart)), Ok(false));
        assert_eq!(decoder.resolved_count(), 1);
        let meets = mixed[1] as u32;
        assert_eq!(
            decoder.try_add_symbol(encoder.encode_symbol(meets)),
            Err(SymbolError::Size)
        );
    }
}

#[test]
fn sizes_that_meet_at_once_are_refused() {
    let encoder = encoder_of(&varied(800), 16);
    let mut decoder = decoder_for(&encoder);
    // A single input is covered by a check of the right size.
    for esi in [0, encoder.k() as u32, encoder.l() as u32 - 1] {
        assert_eq!(decoder.try_add_symbol(sized(esi, 9)), Err(SymbolError::Size));
        assert!(!decoder.ignores_symbol(esi));
    }
    let (esi, mixed) = repair_of(encoder.l(), 3);
    assert!(!decoder.add_symbol(encoder.encode_symbol(mixed[2] as u32)));
    assert_eq!(decoder.try_add_symbol(sized(esi, 9)), Err(SymbolError::Size));
    assert!(!decoder.ignores_symbol(esi));
    assert_eq!(decoder.try_add_symbol(encoder.encode_symbol(esi)), Ok(false));
    assert_eq!(decoder.resolved_count(), 1);
}

#[test]
fn repair_neighbors_follow_the_generator() {
    let l = 300usize;
    let sampler = SolitonSampler::new(l, thresholds(l));
    for esi in [300u32, 301, 4096, u32::MAX] {
        let mut rng = ChaCha8Rng::seed_from_u64((esi as u64) ^ 0x9E3779B97F4A7C15);
        let u: f64 = rng.gen();
        let cdf = robust_soliton_cdf(l);
        let degree = (1..=l).find(|&d| u <= cdf[d]).unwrap_or(1);
        let mut expected: Vec<usize> = Vec::new();
        while expected.len() < degree {
            let idx = rng.gen_range(0..l);
            if !expected.contains(&idx) {
                expected.push(idx);
            }
        }
        expected.sort_unstable();
        assert_eq!(sampler.get_neighbors(esi), (degree, expected));
    }
}
