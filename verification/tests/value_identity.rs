use fastcore::engine::{simulate_many, simulate_policy_log, SimConfig};
use fastcore::state::{DevDeck, RoadComponents};
use fastcore::stats::Stats;

#[test]
fn fresh_road_components_equal_the_default() {
    let fresh = RoadComponents::new();
    assert!(fresh.is_empty());
    assert_eq!(fresh, RoadComponents::default());
}

#[test]
fn ordered_deck_equals_the_default() {
    assert_eq!(DevDeck::ordered(), DevDeck::default());
}

#[test]
fn pop_on_an_empty_deck_leaves_it_unchanged() {
    let mut deck = DevDeck::ordered();
    let mut popped = 0;
    while deck.pop().is_some() {
        popped += 1;
    }
    assert_eq!(popped, 25);
    let before = deck;
    assert_eq!(deck.pop(), None);
    assert_eq!(deck, before);
    assert!(deck.is_empty());
}

fn merged(a: &Stats, b: &Stats) -> Stats {
    let mut out = a.clone();
    out.merge(b);
    out
}

#[test]
fn stats_over_joined_seeds_are_the_parts_merged() {
    let config = SimConfig::default();
    let whole = simulate_many(&[11, 12, 13], &config);
    let parts = merged(&simulate_many(&[11], &config), &simulate_many(&[12, 13], &config));
    assert_eq!(whole.games, parts.games);
    assert_eq!(whole.turns, parts.turns);
    assert_eq!(whole.illegal_actions, parts.illegal_actions);
    assert_eq!(whole.wins, parts.wins);
    assert_eq!(whole.games, 3);
}

#[test]
fn one_log_per_seed_in_seed_order() {
    let config = SimConfig::default();
    let logs = simulate_policy_log(&[21, 22], &config);
    assert_eq!(logs.len(), 2);
    assert_eq!(logs[0], simulate_policy_log(&[21], &config)[0]);
    assert_eq!(logs[1], simulate_policy_log(&[22], &config)[0]);
    assert!(!logs[0].is_empty());
}
