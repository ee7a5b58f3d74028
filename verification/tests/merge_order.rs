use fastcore::stats::{merge_worker_stats, Stats};

#[test]
fn merge_worker_stats_sorts_by_worker_id() {
    let mut a = Stats::default();
    a.games = 1;
    a.turns = 2;
    a.wins[0] = 1;

    let mut b = Stats::default();
    b.games = 1;
    b.turns = 4;
    b.wins[1] = 1;

    let mut c = Stats::default();
    c.games = 1;
    c.turns = 8;
    c.wins[2] = 1;

    let merged = merge_worker_stats(vec![(2, c.clone()), (0, a.clone()), (1, b.clone())]);

    let mut expected = Stats::default();
    expected.merge(&a);
    expected.merge(&b);
    expected.merge(&c);

    assert_eq!(merged.games, expected.games);
    assert_eq!(merged.turns, expected.turns);
    assert_eq!(merged.wins, expected.wins);
    assert_eq!(merged.illegal_actions, expected.illegal_actions);
}

#[test]
fn merge_of_no_workers_is_empty() {
    let merged = merge_worker_stats(Vec::new());
    assert_eq!(merged.games, 0);
    assert_eq!(merged.turns, 0);
    assert_eq!(merged.wins, [0; 4]);
    assert_eq!(merged.illegal_actions, 0);
}

#[test]
fn merge_adds_every_counter() {
    let mut a = Stats::default();
    a.games = 3;
    a.turns = 10;
    a.illegal_actions = 1;
    a.wins = [1, 0, 2, 0];
    let mut b = Stats::default();
    b.games = 2;
    b.turns = 5;
    b.wins = [0, 1, 0, 1];
    a.merge(&b);
    assert_eq!(a.games, 5);
    assert_eq!(a.turns, 15);
    assert_eq!(a.illegal_actions, 1);
    assert_eq!(a.wins, [1, 1, 2, 1]);
}
