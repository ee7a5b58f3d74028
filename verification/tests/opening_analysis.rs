use fastcore::analysis::{
    branch_edge, color_resource_pips, edge_id_for_nodes, is_settlement_pair_legal, list_settlement_actions,
    pip_count, prime_initial_settlement_state, python_resource_index, settlement_pips, settlement_total_pips,
};
use fastcore::board::Board;
use fastcore::engine::{ArmyState, RoadState};
use fastcore::state::State;
use fastcore::types::{ActionPrompt, BuildingLevel, Resource, EDGE_COUNT, INVALID_TILE, NODE_COUNT};
use fastcore::value_player::ValueActionKind;

fn reference_pips(number: u8) -> u8 {
    match number {
        2 | 12 => 1,
        3 | 11 => 2,
        4 | 10 => 3,
        5 | 9 => 4,
        6 | 8 => 5,
        _ => 0,
    }
}

#[test]
fn pips_follow_the_dice() {
    for number in 0..=13u8 {
        assert_eq!(pip_count(number), reference_pips(number), "number {number}");
    }
    assert_eq!(python_resource_index(Resource::Lumber), 0);
    assert_eq!(python_resource_index(Resource::Brick), 1);
    assert_eq!(python_resource_index(Resource::Wool), 2);
    assert_eq!(python_resource_index(Resource::Grain), 3);
    assert_eq!(python_resource_index(Resource::Ore), 4);
}

#[test]
fn settlement_pips_add_up_the_tiles_around_a_node() {
    let board = Board::standard();
    for node in 0..NODE_COUNT {
        let mut expected = [0u32; 5];
        for tile in board.node_tiles[node] {
            if tile == INVALID_TILE {
                continue;
            }
            if let (Some(r), Some(n)) = (board.tile_resources[tile as usize], board.tile_numbers[tile as usize]) {
                expected[python_resource_index(r)] += reference_pips(n) as u32;
            }
        }
        assert_eq!(settlement_pips(&board, node as u8), expected, "node {node}");
        assert_eq!(settlement_total_pips(&board, node as u8), expected.iter().sum::<u32>());
    }
}

#[test]
fn a_city_collects_twice_the_pips() {
    let board = Board::standard();
    let mut state = State::new();
    state.node_owner[10] = 2;
    state.node_level[10] = BuildingLevel::Settlement;
    state.node_owner[30] = 2;
    state.node_level[30] = BuildingLevel::City;
    let a = settlement_pips(&board, 10);
    let b = settlement_pips(&board, 30);
    let pips = color_resource_pips(&board, &state, 2);
    for i in 0..5 {
        assert_eq!(pips[i], a[i] + 2 * b[i]);
    }
    assert_eq!(color_resource_pips(&board, &state, 1), [0; 5]);
}

#[test]
fn edges_are_found_from_either_end() {
    let board = Board::standard();
    for edge in 0..EDGE_COUNT {
        let [a, b] = board.edge_nodes[edge];
        assert_eq!(edge_id_for_nodes(&board, a, b), Some(edge as u8));
        assert_eq!(edge_id_for_nodes(&board, b, a), Some(edge as u8));
        let (lo, hi) = branch_edge(&board, edge as u8);
        assert!(lo <= hi);
        assert_eq!((lo.min(hi), lo.max(hi)), (a.min(b), a.max(b)));
    }
    assert_eq!(edge_id_for_nodes(&board, 0, 0), None);
}

#[test]
fn priming_puts_the_player_to_an_opening_settlement() {
    let mut state = State::new();
    state.is_initial_build_phase = false;
    state.current_prompt = ActionPrompt::PlayTurn;
    prime_initial_settlement_state(&mut state, 3);
    assert_eq!(state.active_player, 3);
    assert_eq!(state.turn_player, 3);
    assert!(state.is_initial_build_phase);
    assert_eq!(state.current_prompt, ActionPrompt::BuildInitialSettlement);
    let board = Board::standard();
    let actions = list_settlement_actions(&board, &state, 3);
    assert_eq!(actions.len(), NODE_COUNT);
    assert!(actions.iter().all(|a| matches!(a.kind, ValueActionKind::BuildSettlement(_))));
}

#[test]
fn a_settlement_pair_needs_distance() {
    let board = Board::standard();
    let state = State::new();
    let e = board.node_edges[0][0];
    let [a, b] = board.edge_nodes[e as usize];
    let neighbour = if a == 0 { b } else { a };
    let road = RoadState::empty();
    let army = ArmyState::empty();
    assert!(!is_settlement_pair_legal(&board, &state, road, army, 5, 1, 0, 0));
    assert!(!is_settlement_pair_legal(&board, &state, road, army, 5, 1, 0, neighbour));
    let far = (0..NODE_COUNT as u8)
        .find(|n| {
            *n != 0
                && *n != neighbour
                && !board.node_edges[*n as usize].iter().any(|e| {
                    *e != 255 && board.edge_nodes[*e as usize].contains(&0)
                })
        })
        .expect("a node away from node 0");
    assert!(is_settlement_pair_legal(&board, &state, road, army, 5, 1, 0, far));
    assert!(!is_settlement_pair_legal(&board, &state, road, army, 5, 1, 0, NODE_COUNT as u8));
}
