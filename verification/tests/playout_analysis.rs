use fastcore::analysis::{splitmix64, stackelberg_seed, PlayoutAggregate, PlayoutResult};

fn synthetic_results() -> Vec<PlayoutResult> {
    vec![
        PlayoutResult {
            winner: Some(0),
            vps_by_player: [10, 8, 6, 4],
            num_turns: 50,
        },
        PlayoutResult {
            winner: Some(2),
            vps_by_player: [7, 6, 10, 5],
            num_turns: 40,
        },
        PlayoutResult {
            winner: None,
            vps_by_player: [9, 7, 9, 6],
            num_turns: 60,
        },
        PlayoutResult {
            winner: Some(2),
            vps_by_player: [6, 5, 10, 8],
            num_turns: 45,
        },
    ]
}

#[test]
fn playout_aggregate_merge_matches_single_pass() {
    let results = synthetic_results();

    let mut full = PlayoutAggregate::default();
    for result in &results {
        full.update(result);
    }

    let mut left = PlayoutAggregate::default();
    for result in &results[..2] {
        left.update(result);
    }
    let mut right = PlayoutAggregate::default();
    for result in &results[2..] {
        right.update(result);
    }
    left.merge(&right);

    assert_eq!(left.samples, full.samples);
    assert_eq!(left.total_non_none, full.total_non_none);
    assert_eq!(left.total_turns, full.total_turns);
    assert_eq!(left.wins, full.wins);
    assert_eq!(left.total_vps, full.total_vps);
}

#[test]
fn playout_aggregate_counts_the_synthetic_results() {
    let mut agg = PlayoutAggregate::default();
    for result in &synthetic_results() {
        agg.update(result);
    }
    assert_eq!(agg.samples, 4);
    assert_eq!(agg.total_non_none, 3);
    assert_eq!(agg.wins, [1, 0, 2, 0]);
    assert_eq!(agg.total_vps, [32, 26, 35, 23]);
    assert_eq!(agg.total_turns, 195);
}

#[test]
fn stackelberg_seed_deterministic() {
    let s1 = stackelberg_seed(42, 1, 2, 3);
    let s2 = stackelberg_seed(42, 1, 2, 3);
    let s3 = stackelberg_seed(42, 1, 2, 4);
    assert_eq!(s1, s2);
    assert_ne!(s1, s3);
}

fn reference_splitmix64(mut x: u64) -> u64 {
    x = x.wrapping_add(0x9E3779B97F4A7C15);
    let mut z = x;
    z = (z ^ (z >> 30)).wrapping_mul(0xBF58476D1CE4E5B9);
    z = (z ^ (z >> 27)).wrapping_mul(0x94D049BB133111EB);
    z ^ (z >> 31)
}

#[test]
fn splitmix64_known_values() {
    assert_eq!(splitmix64(0), 0xE220A8397B1DCDAF);
    for x in [1u64, 42, 0xFFFF_FFFF_FFFF_FFFF, 123456789] {
        assert_eq!(splitmix64(x), reference_splitmix64(x));
    }
}
