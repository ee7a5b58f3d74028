use fastcore::board::Board;
use fastcore::engine::{ArmyState, RoadState};
use fastcore::rng::rng_for_stream;
use fastcore::state::State;
use fastcore::types::{ActionPrompt, EdgeId, NodeId, INVALID_EDGE, NODE_COUNT, RESOURCE_COUNT};
use fastcore::value_player::{apply_value_action, ValueAction, ValueActionKind};

fn far_end(board: &Board, edge: EdgeId, node: NodeId) -> NodeId {
    let nodes = board.edge_nodes[edge as usize];
    if nodes[0] == node {
        nodes[1]
    } else {
        nodes[0]
    }
}

#[test]
fn settlement_splits_a_cut_road_network() {
    let board = Board::standard();
    let mid = (0..NODE_COUNT)
        .find(|&n| board.node_edges[n][0] != INVALID_EDGE && board.node_edges[n][1] != INVALID_EDGE)
        .expect("a node with two edges") as NodeId;
    let e1 = board.node_edges[mid as usize][0];
    let e2 = board.node_edges[mid as usize][1];
    let a = far_end(&board, e1, mid);
    let c = far_end(&board, e2, mid);

    let mut state = State::new();
    state.is_initial_build_phase = false;
    state.current_prompt = ActionPrompt::PlayTurn;
    state.turn_player = 0;
    state.active_player = 0;
    state.has_rolled[0] = true;
    state.player_resources[0] = [1; RESOURCE_COUNT];
    state.edge_owner[e1 as usize] = 1;
    state.edge_owner[e2 as usize] = 1;
    state.road_components[1].push_mask((1u64 << a) | (1u64 << mid) | (1u64 << c));

    let mut road_state = RoadState::empty();
    let mut army_state = ArmyState::empty();
    let action = ValueAction { player: 0, kind: ValueActionKind::BuildSettlement(mid) };
    apply_value_action(&board, &mut state, &mut road_state, &mut army_state, &action, &mut rng_for_stream(11, 0));

    assert_eq!(state.node_owner[mid as usize], 0);
    assert_eq!(
        state.road_components[1].iter_masks(),
        vec![(1u64 << a) | (1u64 << mid), (1u64 << c) | (1u64 << mid)]
    );
    assert_eq!(state.road_components[0].iter_masks(), Vec::<u64>::new());
}

#[test]
fn settlement_leaves_an_uncut_network_alone() {
    let board = Board::standard();
    let mid = (0..NODE_COUNT)
        .find(|&n| board.node_edges[n][0] != INVALID_EDGE && board.node_edges[n][1] != INVALID_EDGE)
        .expect("a node with two edges") as NodeId;
    let e1 = board.node_edges[mid as usize][0];
    let a = far_end(&board, e1, mid);

    let mut state = State::new();
    state.is_initial_build_phase = false;
    state.current_prompt = ActionPrompt::PlayTurn;
    state.turn_player = 0;
    state.active_player = 0;
    state.has_rolled[0] = true;
    state.player_resources[0] = [1; RESOURCE_COUNT];
    state.edge_owner[e1 as usize] = 1;
    let mask = (1u64 << a) | (1u64 << mid);
    state.road_components[1].push_mask(mask);

    let mut road_state = RoadState::empty();
    let mut army_state = ArmyState::empty();
    let action = ValueAction { player: 0, kind: ValueActionKind::BuildSettlement(mid) };
    apply_value_action(&board, &mut state, &mut road_state, &mut army_state, &action, &mut rng_for_stream(12, 0));

    assert_eq!(state.road_components[1].iter_masks(), vec![mask]);
}
