use fastcore::{simulate_many, simulate_policy_log, SimConfig};

#[test]
fn policy_logs_are_deterministic_for_fixed_seeds() {
    let seeds = [1000u64, 1001u64, 1002u64, 1003u64];
    let config = SimConfig::default();

    let first = simulate_policy_log(&seeds, &config);
    let second = simulate_policy_log(&seeds, &config);

    assert_eq!(first, second);
}

#[test]
fn simulated_games_count_one_winner_each() {
    let seeds = [7u64, 8u64, 9u64];
    let config = SimConfig::default();
    let stats = simulate_many(&seeds, &config);
    assert_eq!(stats.games, 3);
    assert_eq!(stats.wins.iter().sum::<u64>(), 3);
    assert!(stats.turns <= 3 * config.max_turns as u64);
    assert!(stats.illegal_actions <= 3);
}

#[test]
fn policy_log_starts_with_opening_settlement() {
    let logs = simulate_policy_log(&[1000u64], &SimConfig::default());
    assert_eq!(logs.len(), 1);
    assert!(logs[0][0].starts_with("BUILD_SETTLEMENT:"));
    assert!(logs[0][1].starts_with("BUILD_ROAD:"));
}
