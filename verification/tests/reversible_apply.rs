use fastcore::board::Board;
use fastcore::engine::{ArmyState, RoadState};
use fastcore::rng::rng_for_stream;
use fastcore::rollback::{apply_value_action_reversible, undo_value_action_reversible, DecideEvalContext, DecisionDelta};
use fastcore::state::State;
use fastcore::types::{ActionPrompt, BuildingLevel, PlayerId, Resource, INVALID_NODE, PLAYER_COUNT, RESOURCE_COUNT};
use fastcore::value_player::{apply_value_action_kernel, generate_playable_actions, ValueAction, ValueActionKind};

fn road_and_army_equal(a_road: &RoadState, a_army: &ArmyState, b_road: &RoadState, b_army: &ArmyState) -> bool {
    for player in 0..PLAYER_COUNT {
        if a_road.length_for_player(player as PlayerId) != b_road.length_for_player(player as PlayerId) {
            return false;
        }
    }
    a_road.owner() == b_road.owner()
        && a_road.length() == b_road.length()
        && a_army.owner() == b_army.owner()
        && a_army.size() == b_army.size()
}

fn pick_action(actions: &[ValueAction], predicate: impl Fn(&ValueActionKind) -> bool) -> ValueAction {
    actions.iter().find(|action| predicate(&action.kind)).cloned().expect("expected action for scenario")
}

fn setup_initial_settlement_scenario() -> (State, RoadState, ArmyState, ValueAction) {
    let board = Board::standard();
    let state = State::new();
    let action = pick_action(&generate_playable_actions(&board, &state, state.active_player), |kind| {
        matches!(kind, ValueActionKind::BuildSettlement(_))
    });
    (state, RoadState::empty(), ArmyState::empty(), action)
}

fn setup_initial_road_scenario() -> (State, RoadState, ArmyState, ValueAction) {
    let board = Board::standard();
    let mut state = State::new();
    let mut road_state = RoadState::empty();
    let mut army_state = ArmyState::empty();
    let settlement = pick_action(&generate_playable_actions(&board, &state, state.active_player), |kind| {
        matches!(kind, ValueActionKind::BuildSettlement(_))
    });
    apply_value_action_kernel(&board, &mut state, &mut road_state, &mut army_state, &settlement, &mut rng_for_stream(11, 0));
    let action = pick_action(&generate_playable_actions(&board, &state, state.active_player), |kind| {
        matches!(kind, ValueActionKind::BuildRoad(_))
    });
    (state, road_state, army_state, action)
}

fn setup_discard_scenario() -> (State, RoadState, ArmyState, ValueAction) {
    let board = Board::standard();
    let mut state = State::new();
    state.is_initial_build_phase = false;
    state.current_prompt = ActionPrompt::Discard;
    state.turn_player = 0;
    state.active_player = 0;
    state.is_discarding = true;
    state.player_resources[0] = [2; RESOURCE_COUNT];
    let action =
        pick_action(&generate_playable_actions(&board, &state, 0), |kind| matches!(kind, ValueActionKind::Discard(_)));
    (state, RoadState::empty(), ArmyState::empty(), action)
}

fn setup_move_robber_scenario() -> (State, RoadState, ArmyState, ValueAction) {
    let board = Board::standard();
    let mut state = State::new();
    state.is_initial_build_phase = false;
    state.current_prompt = ActionPrompt::MoveRobber;
    state.turn_player = 0;
    state.active_player = 0;
    state.is_moving_robber = true;

    let mut target_tile = None;
    let mut target_node = None;
    for tile in 0..board.tile_nodes.len() {
        let tile_id = tile as u8;
        if tile_id == state.robber_tile {
            continue;
        }
        for node in board.tile_nodes[tile] {
            if node == INVALID_NODE {
                continue;
            }
            target_tile = Some(tile_id);
            target_node = Some(node);
            break;
        }
        if target_tile.is_some() {
            break;
        }
    }
    let tile = target_tile.expect("expected tile");
    let node = target_node.expect("expected node");
    state.node_owner[node as usize] = 1;
    state.node_level[node as usize] = BuildingLevel::Settlement;
    state.player_resources[1][Resource::Brick.as_index()] = 2;

    let action = pick_action(&generate_playable_actions(&board, &state, 0), |kind| {
        matches!(kind, ValueActionKind::MoveRobber { tile: action_tile, victim: Some(1), .. } if *action_tile == tile)
    });
    (state, RoadState::empty(), ArmyState::empty(), action)
}

fn setup_decide_trade_scenario() -> (State, RoadState, ArmyState, ValueAction) {
    let board = Board::standard();
    let mut state = State::new();
    state.is_initial_build_phase = false;
    state.current_prompt = ActionPrompt::DecideTrade;
    state.turn_player = 0;
    state.active_player = 1;
    state.trade_offering_player = 0;
    state.current_trade = [0; RESOURCE_COUNT * 2];
    state.current_trade[Resource::Brick.as_index()] = 1;
    state.current_trade[RESOURCE_COUNT + Resource::Grain.as_index()] = 1;
    state.is_resolving_trade = true;
    state.player_resources[1][Resource::Grain.as_index()] = 1;
    let action =
        pick_action(&generate_playable_actions(&board, &state, 1), |kind| matches!(kind, ValueActionKind::AcceptTrade));
    (state, RoadState::empty(), ArmyState::empty(), action)
}

fn setup_confirm_trade_scenario() -> (State, RoadState, ArmyState, ValueAction) {
    let board = Board::standard();
    let mut state = State::new();
    state.is_initial_build_phase = false;
    state.current_prompt = ActionPrompt::DecideAcceptees;
    state.turn_player = 0;
    state.active_player = 0;
    state.trade_offering_player = 0;
    state.is_resolving_trade = true;
    state.current_trade = [0; RESOURCE_COUNT * 2];
    state.current_trade[Resource::Brick.as_index()] = 1;
    state.current_trade[RESOURCE_COUNT + Resource::Grain.as_index()] = 1;
    state.acceptees[1] = true;
    state.player_resources[0][Resource::Brick.as_index()] = 1;
    state.player_resources[1][Resource::Grain.as_index()] = 1;
    let action = pick_action(&generate_playable_actions(&board, &state, 0), |kind| {
        matches!(kind, ValueActionKind::ConfirmTrade(1))
    });
    (state, RoadState::empty(), ArmyState::empty(), action)
}

fn setup_roll_scenario() -> (State, RoadState, ArmyState, ValueAction) {
    let board = Board::standard();
    let mut state = State::new();
    state.is_initial_build_phase = false;
    state.current_prompt = ActionPrompt::PlayTurn;
    state.turn_player = 0;
    state.active_player = 0;
    state.has_rolled[0] = false;
    let action =
        pick_action(&generate_playable_actions(&board, &state, 0), |kind| matches!(kind, ValueActionKind::Roll));
    (state, RoadState::empty(), ArmyState::empty(), action)
}

fn scenarios() -> Vec<(State, RoadState, ArmyState, ValueAction)> {
    vec![
        setup_initial_settlement_scenario(),
        setup_initial_road_scenario(),
        setup_discard_scenario(),
        setup_move_robber_scenario(),
        setup_decide_trade_scenario(),
        setup_confirm_trade_scenario(),
        setup_roll_scenario(),
    ]
}

#[test]
fn reversible_apply_undo_is_identity_for_prompt_classes() {
    let board = Board::standard();
    for (idx, (state, road_state, army_state, action)) in scenarios().into_iter().enumerate() {
        let mut reversible_state = state.clone();
        let mut reversible_road = road_state;
        let mut reversible_army = army_state;
        let mut rng = rng_for_stream(100 + idx as u64, 0);
        let before_state = reversible_state.clone();
        let before_road = reversible_road;
        let before_army = reversible_army;
        let mut decision_delta = DecisionDelta::new();

        apply_value_action_reversible(
            &board,
            &mut reversible_state,
            &mut reversible_road,
            &mut reversible_army,
            &action,
            &mut rng,
            &mut decision_delta,
        );
        undo_value_action_reversible(&mut reversible_state, &mut reversible_road, &mut reversible_army, &decision_delta);

        assert_eq!(reversible_state, before_state);
        assert!(road_and_army_equal(&reversible_road, &reversible_army, &before_road, &before_army));
    }
}

#[test]
fn reversible_apply_matches_kernel_apply_and_rng_consumption() {
    let board = Board::standard();
    for (idx, (state, road_state, army_state, action)) in scenarios().into_iter().enumerate() {
        let mut reversible_state = state.clone();
        let mut reversible_road = road_state;
        let mut reversible_army = army_state;
        let mut kernel_state = state;
        let mut kernel_road = road_state;
        let mut kernel_army = army_state;
        let mut reversible_rng = rng_for_stream(1000 + idx as u64, 0);
        let mut kernel_rng = rng_for_stream(1000 + idx as u64, 0);
        let mut decision_delta = DecisionDelta::new();

        apply_value_action_reversible(
            &board,
            &mut reversible_state,
            &mut reversible_road,
            &mut reversible_army,
            &action,
            &mut reversible_rng,
            &mut decision_delta,
        );
        apply_value_action_kernel(&board, &mut kernel_state, &mut kernel_road, &mut kernel_army, &action, &mut kernel_rng);

        assert_eq!(reversible_state, kernel_state);
        assert!(road_and_army_equal(&reversible_road, &reversible_army, &kernel_road, &kernel_army));
        assert_eq!(reversible_rng.next_u64(), kernel_rng.next_u64());
    }
}

#[test]
fn eval_context_rolls_back_every_prompt_class() {
    let board = Board::standard();
    for (idx, (state, road_state, army_state, action)) in scenarios().into_iter().enumerate() {
        let mut eval = DecideEvalContext::new(&state, &road_state, &army_state);
        let mut rng = rng_for_stream(200 + idx as u64, 0);
        let mut kernel_state = state.clone();
        let mut kernel_road = road_state;
        let mut kernel_army = army_state;
        apply_value_action_kernel(&board, &mut kernel_state, &mut kernel_road, &mut kernel_army, &action, &mut rng_for_stream(200 + idx as u64, 0));

        eval.apply(&board, &action, &mut rng);
        assert_eq!(*eval.scratch_state(), kernel_state);
        assert!(road_and_army_equal(eval.scratch_road_state(), eval.scratch_army_state(), &kernel_road, &kernel_army));

        eval.rollback();
        assert_eq!(*eval.scratch_state(), state);
        assert!(road_and_army_equal(eval.scratch_road_state(), eval.scratch_army_state(), &road_state, &army_state));
    }
}

#[test]
fn eval_context_rolls_back_a_paid_build() {
    let board = Board::standard();
    let mut state = State::new();
    state.is_initial_build_phase = false;
    state.current_prompt = ActionPrompt::PlayTurn;
    state.turn_player = 0;
    state.active_player = 0;
    state.has_rolled[0] = true;
    state.node_owner[0] = 0;
    state.node_level[0] = BuildingLevel::Settlement;
    state.road_components[0].push_singleton(0);
    state.player_resources[0] = [3; RESOURCE_COUNT];
    let road_state = RoadState::empty();
    let army_state = ArmyState::empty();

    let actions = generate_playable_actions(&board, &state, 0);
    let city = pick_action(&actions, |kind| matches!(kind, ValueActionKind::BuildCity(0)));
    let road = pick_action(&actions, |kind| matches!(kind, ValueActionKind::BuildRoad(_)));
    let mut eval = DecideEvalContext::new(&state, &road_state, &army_state);
    let mut rng = rng_for_stream(5, 0);
    for action in [city, road] {
        eval.apply(&board, &action, &mut rng);
        assert_ne!(*eval.scratch_state(), state);
        eval.rollback();
        assert_eq!(*eval.scratch_state(), state);
    }
}
