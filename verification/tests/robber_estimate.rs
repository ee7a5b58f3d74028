use fastcore::robber::round_to_double;

const SCALE: f64 = 1152921504606846976.0;

fn scaled(value: f64) -> u128 {
    (value * SCALE) as u128
}

#[test]
fn estimate_matches_double_arithmetic() {
    for base in 0u8..40 {
        for devs in 0u8..60 {
            let third = round_to_double(devs as u128 * (1u128 << 60), 3);
            let estimate = round_to_double(base as u128 * (1u128 << 60) + third, 1);
            let expected = base as f64 + (devs as f64 / 3.0);
            assert_eq!(estimate, scaled(expected), "base={base} devs={devs}");
        }
    }
}

#[test]
fn estimate_ties_follow_double_rounding() {
    let est = |base: u128, devs: u128| {
        let third = round_to_double(devs * (1u128 << 60), 3);
        round_to_double(base * (1u128 << 60) + third, 1)
    };
    // 0 + 5/3 and 1 + 2/3 are equal as fractions but not as doubles.
    assert!(est(0, 5) > est(1, 2));
    assert_eq!(est(1, 0), 1u128 << 60);
    assert_eq!(est(0, 3), 1u128 << 60);
}
