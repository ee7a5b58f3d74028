use vstd::prelude::*;

pub mod action_log;
pub mod action_sets;
pub mod actions;
pub mod analysis;
pub mod bits;
pub mod board;
pub mod board_config;
pub mod delta;
pub mod engine;
pub(crate) mod production;
pub(crate) mod scoring;
pub mod reach;
pub mod replay;
pub mod robber;
pub(crate) mod policy;
pub(crate) mod roads;
pub(crate) mod building;
pub(crate) mod log_format;
pub mod game;
pub mod playout;
pub mod rng;
pub mod rollback;
pub mod rules;
pub mod state;
pub mod stats;
mod board_data;
pub mod types;
pub mod value_player;

pub use actions::{ActionCode, ActionKind};
pub use board::Board;
pub use engine::{simulate_many, simulate_policy_log, SimConfig};
pub use state::State;
pub use stats::Stats;
pub use types::{
    ActionPrompt, BuildingLevel, DevCard, EdgeId, NodeId, PlayerId, PortType, Resource, TileId, TurnPhase,
    DEV_CARD_COUNT, EDGE_COUNT, INVALID_EDGE, INVALID_NODE, INVALID_TILE, NODE_COUNT, NO_PLAYER, PLAYER_COUNT,
    PYTHON_RESOURCE_ORDER, RESOURCE_COUNT, TILE_COUNT,
};

verus! {

} // verus!
