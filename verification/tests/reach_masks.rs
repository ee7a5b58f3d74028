use fastcore::board::Board;
use fastcore::reach::{
    enemy_nodes_mask, enemy_roads_mask, global_buildable_nodes, owned_or_buildable_nodes, player_node_features,
    player_zero_nodes, reachable_nodes_by_level,
};
use fastcore::state::State;
use fastcore::types::{BuildingLevel, Resource, EDGE_COUNT, NODE_COUNT, NO_PLAYER};
use fastcore::value_player::{sort_value_actions, ValueAction, ValueActionKind};

fn edge_between(board: &Board, a: u8, b: u8) -> u8 {
    (0..EDGE_COUNT)
        .find(|&e| {
            let n = board.edge_nodes[e];
            (n[0] == a && n[1] == b) || (n[0] == b && n[1] == a)
        })
        .expect("nodes are adjacent") as u8
}

fn neighbour(board: &Board, node: u8) -> u8 {
    let e = board.node_edges[node as usize][0];
    let n = board.edge_nodes[e as usize];
    if n[0] == node {
        n[1]
    } else {
        n[0]
    }
}

#[test]
fn a_network_follows_the_players_roads() {
    let board = Board::standard();
    let mut state = State::new();
    let a = 0u8;
    let b = neighbour(&board, a);
    let c = (0..3)
        .map(|k| board.node_edges[b as usize][k])
        .filter(|e| *e != 255)
        .map(|e| {
            let n = board.edge_nodes[e as usize];
            if n[0] == b {
                n[1]
            } else {
                n[0]
            }
        })
        .find(|n| *n != a)
        .expect("b has another neighbour");
    state.node_owner[a as usize] = 0;
    state.node_level[a as usize] = BuildingLevel::Settlement;
    state.edge_owner[edge_between(&board, a, b) as usize] = 0;
    state.edge_owner[edge_between(&board, b, c) as usize] = 0;
    let nodes = player_zero_nodes(&board, &state, 0);
    let reached: Vec<usize> = (0..NODE_COUNT).filter(|&n| nodes[n]).collect();
    let mut expected = vec![a as usize, b as usize, c as usize];
    expected.sort();
    assert_eq!(reached, expected);

    state.node_owner[b as usize] = 1;
    let nodes = player_zero_nodes(&board, &state, 0);
    assert!(nodes[b as usize]);
    assert!(nodes[c as usize]);
    state.edge_owner[edge_between(&board, a, b) as usize] = NO_PLAYER;
    let nodes = player_zero_nodes(&board, &state, 0);
    assert!(nodes[a as usize]);
    assert!(nodes[b as usize]);
    assert!(nodes[c as usize]);
}

#[test]
fn enemy_buildings_block_the_spread() {
    let board = Board::standard();
    let mut state = State::new();
    state.node_owner[0] = 0;
    let enemy_nodes = enemy_nodes_mask(&state, 0);
    let enemy_roads = enemy_roads_mask(&state, 0);
    let mut zero = [false; NODE_COUNT];
    zero[0] = true;
    let levels = reachable_nodes_by_level(&board, &zero, &enemy_nodes, &enemy_roads);
    let first: Vec<usize> = (0..NODE_COUNT).filter(|&n| levels[0][n]).collect();
    let degree = board.node_edges[0].iter().filter(|e| **e != 255).count();
    assert_eq!(first.len(), 1 + degree);
    assert!(levels[1].iter().filter(|x| **x).count() > first.len());

    let b = neighbour(&board, 0);
    state.node_owner[b as usize] = 2;
    let enemy_nodes = enemy_nodes_mask(&state, 0);
    assert!(enemy_nodes[b as usize]);
    assert!(!enemy_nodes[0]);
    let levels = reachable_nodes_by_level(&board, &zero, &enemy_nodes, &enemy_roads);
    assert!(levels[0][b as usize]);
    let spread_from_b = (0..3)
        .map(|k| board.node_edges[b as usize][k])
        .filter(|e| *e != 255)
        .map(|e| {
            let n = board.edge_nodes[e as usize];
            if n[0] == b {
                n[1]
            } else {
                n[0]
            }
        })
        .filter(|n| *n != 0 && !levels[0][*n as usize])
        .count();
    assert!(spread_from_b > 0);
}

#[test]
fn buildable_nodes_keep_their_distance() {
    let board = Board::standard();
    let mut state = State::new();
    let all = global_buildable_nodes(&board, &state);
    assert!(all.iter().all(|x| *x));
    state.node_owner[0] = 1;
    let mask = global_buildable_nodes(&board, &state);
    assert!(!mask[0]);
    assert!(!mask[neighbour(&board, 0) as usize]);
    let owned = owned_or_buildable_nodes(&state, 1, &mask);
    assert!(owned[0]);
    assert!(!owned[neighbour(&board, 0) as usize]);
}

#[test]
fn node_features_count_tiles_and_harbours() {
    let board = Board::standard();
    let mut state = State::new();
    let (tiles, ports, three) = player_node_features(&board, &state, 0);
    assert_eq!((tiles, ports, three), (0, [false; 5], false));
    state.node_owner[0] = 0;
    state.node_owner[25] = 0;
    state.node_owner[38] = 0;
    let (tiles, ports, three) = player_node_features(&board, &state, 0);
    let mut touched = std::collections::BTreeSet::new();
    for node in [0usize, 25, 38] {
        for t in board.node_tiles[node] {
            if t != 255 {
                touched.insert(t);
            }
        }
    }
    assert_eq!(tiles, touched.len());
    assert!(three);
    assert!(ports[Resource::Brick.as_index()]);
    assert!(!ports[Resource::Ore.as_index()]);
}

#[test]
fn actions_sort_by_kind_then_payload() {
    let mut actions = vec![
        ValueAction { player: 0, kind: ValueActionKind::Roll },
        ValueAction { player: 0, kind: ValueActionKind::BuildSettlement(9) },
        ValueAction { player: 0, kind: ValueActionKind::AcceptTrade },
        ValueAction { player: 0, kind: ValueActionKind::BuildSettlement(3) },
        ValueAction { player: 0, kind: ValueActionKind::PlayMonopoly(Resource::Lumber) },
        ValueAction { player: 0, kind: ValueActionKind::PlayMonopoly(Resource::Brick) },
        ValueAction { player: 0, kind: ValueActionKind::ConfirmTrade(0) },
        ValueAction { player: 0, kind: ValueActionKind::ConfirmTrade(1) },
        ValueAction { player: 0, kind: ValueActionKind::Discard(Some([1, 0, 0, 0, 0])) },
        ValueAction { player: 0, kind: ValueActionKind::Discard(None) },
    ];
    sort_value_actions(&mut actions);
    let kinds: Vec<ValueActionKind> = actions.iter().map(|a| a.kind).collect();
    assert_eq!(
        kinds,
        vec![
            ValueActionKind::AcceptTrade,
            ValueActionKind::BuildSettlement(3),
            ValueActionKind::BuildSettlement(9),
            ValueActionKind::ConfirmTrade(1),
            ValueActionKind::ConfirmTrade(0),
            ValueActionKind::Discard(None),
            ValueActionKind::Discard(Some([1, 0, 0, 0, 0])),
            ValueActionKind::PlayMonopoly(Resource::Brick),
            ValueActionKind::PlayMonopoly(Resource::Lumber),
            ValueActionKind::Roll,
        ]
    );
}
