//! Multi-path scheduling.
use orbit_transfer::scheduler::MultiPathScheduler;

#[test]
fn test_pure_p2p() {
    let mut s = MultiPathScheduler::new(1000, 0);
    assert_eq!(s.pick(0), None);
    assert_eq!(s.pick(42), None);
}

#[test]
fn test_pure_relay() {
    let mut s = MultiPathScheduler::new(0, 1000);
    assert_eq!(s.pick(0), Some(0));
    assert_eq!(s.pick(7), Some(0));
}

#[test]
fn test_balanced_split() {
    let mut s = MultiPathScheduler::new(1, 1);
    let mut direct = 0;
    let mut relay = 0;
    for seq in 0..1000u32 {
        match s.pick(seq) {
            Some(_) => relay += 1,
            None => direct += 1,
        }
    }
    assert!((relay as i32 - direct as i32).abs() <= 1, "{relay} vs {direct}");
}

#[test]
fn test_multi_relay_spread() {
    let mut s = MultiPathScheduler::new(1, 1).with_relays(3);
    let mut used = std::collections::HashSet::new();
    for seq in 0..1000u32 {
        if let Some(i) = s.pick(seq) {
            used.insert(i);
        }
    }
    assert_eq!(used.len(), 3, "every relay must carry at least one symbol");
}

#[test]
fn test_ratio_does_not_starve_a_relay() {
    // ratio 0.5 + 2 relays: half of the symbols go to relays, spread evenly
    // across both.
    let mut s = MultiPathScheduler::new(1, 1).with_relays(2);
    let mut per_relay = [0usize; 2];
    for seq in 0..1000u32 {
        if let Some(i) = s.pick(seq) {
            per_relay[i] += 1;
        }
    }
    assert!(per_relay[0] > 0 && per_relay[1] > 0, "{per_relay:?}");
    assert!(
        (per_relay[0] as i32 - per_relay[1] as i32).abs() <= 1,
        "relays must share the load evenly: {per_relay:?}"
    );
}

/// The number of symbols of a run that go over relays.
fn relayed(p2p_bw: u64, relay_bw: u64, start: u32, n: u32) -> u64 {
    let mut s = MultiPathScheduler::new(p2p_bw, relay_bw);
    (0..n).filter(|i| s.pick(start + i).is_some()).count() as u64
}

#[test]
fn balanced_split_holds_from_any_start() {
    for start in [0, 1, 999, 16_777_215, 16_777_216, 16_777_217, 3_000_000_001, u32::MAX - 1000] {
        assert_eq!(relayed(1, 1, start, 1000), 500, "{start}");
        let odd = relayed(1, 1, start, 999) as i64;
        assert!((2 * odd - 999).abs() <= 1, "{start}");
    }
}

#[test]
fn balanced_symbols_alternate() {
    for bw in [1, 7, 1_000_000_007, u64::MAX / 2] {
        let mut s = MultiPathScheduler::new(bw, bw);
        for seq in [0, 1, 2, 3, 16_777_216, 16_777_217, u32::MAX - 1, u32::MAX] {
            assert_eq!(s.pick(seq).is_some(), seq % 2 == 0, "{bw} {seq}");
        }
    }
}

#[test]
fn no_bandwidth_means_an_even_split() {
    let mut s = MultiPathScheduler::new(0, 0);
    let picks: Vec<Option<usize>> = (0..4).map(|seq| s.pick(seq)).collect();
    assert_eq!(picks, vec![Some(0), None, Some(0), None]);
}

#[test]
fn ratio_is_kept_in_every_run() {
    for (p2p_bw, relay_bw) in [(1u64, 2u64), (2, 1), (3, 7), (999, 1), (1, 999), (5, 0), (0, 5)] {
        for start in [0, 17, 16_777_300, 4_000_000_000] {
            for n in [1u32, 10, 333, 3000] {
                let total = (p2p_bw + relay_bw) as i64;
                let got = relayed(p2p_bw, relay_bw, start, n) as i64 * total;
                let due = n as i64 * relay_bw as i64;
                assert!((got - due).abs() < total, "{p2p_bw}:{relay_bw} {start} {n}");
            }
        }
    }
    assert_eq!(relayed(1, 2, 0, 3000), 2000);
    assert_eq!(relayed(u64::MAX - 1, 1, 0, 3000), 1);
}

#[test]
fn two_of_three_go_round() {
    let mut s = MultiPathScheduler::new(1, 2).with_relays(3);
    let picks: Vec<Option<usize>> = (0..6).map(|seq| s.pick(seq)).collect();
    assert_eq!(picks, vec![Some(0), None, Some(1), Some(2), None, Some(0)]);
}

#[test]
fn no_relays_count_as_one() {
    let mut s = MultiPathScheduler::new(0, 1).with_relays(0);
    assert_eq!(s.pick(0), Some(0));
    assert_eq!(s.pick(1), Some(0));
}
