# fastcore

A deterministic Catan simulation core, verified with Verus.

## Layout

- `src/` — the verified library.
  - `types.rs`, `board.rs`, `board_data.rs`, `board_config.rs`: identifiers, the board and its topology,
    and boards built from resource, number and port listings.
  - `state.rs`, `delta.rs`: the game state, road networks as node masks, the development deck, and the
    undo log of board and resource changes.
  - `rules.rs`, `building.rs`, `roads.rs`, `production.rs`, `scoring.rs`, `engine.rs`: legality, builds,
    road networks and longest road, production, points, and the move handlers.
  - `policy.rs`, `robber.rs`, `game.rs`: the built-in policy, the robber heuristic and the game loop.
  - `playout.rs`: what one step of the built-in policy does, and what a whole game and its stats and log are.
  - `action_sets.rs`: which actions a prompt offers, stated by membership.
  - `replay.rs`: one state and generator give one outcome, for an action, a policy step and a whole game.
  - `action_log.rs`: applying an action together with its line for the action log.
  - `value_player.rs`, `rollback.rs`, `reach.rs`: the playable actions of a prompt, applying them, and the
    records that undo a tried move.
  - `rng.rs`, `stats.rs`, `analysis.rs`: the PCG generator, simulation statistics, and the integer parts of
    opening analysis.
- `tests/` — behavioural tests run against the compiled library.
- `app/` — the floating-point value function and the player built on it, and JSON board input.
