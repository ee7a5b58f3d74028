use vstd::prelude::*;

use crate::board_data::{
    standard_tile_numbers, standard_tile_resources, tile_numbers, tile_resources, DESERT_TILE,
    EDGE_NODES, NODE_EDGES, NODE_PORTS, NODE_TILES, TILE_COORDS, TILE_NODES,
};
use crate::types::{
    EdgeId, NodeId, PortType, Resource, TileId, EDGE_COUNT, INVALID_EDGE, INVALID_NODE,
    INVALID_TILE, NODE_COUNT, TILE_COUNT,
};

verus! {

pub const NODE_DEGREE: usize = 3;
pub const NODE_TILE_DEGREE: usize = 3;
pub const TILE_DEGREE: usize = 6;

#[derive(Copy, Clone, Debug)]
pub struct Board {
    pub node_edges: [[EdgeId; NODE_DEGREE]; NODE_COUNT],
    pub edge_nodes: [[NodeId; 2]; EDGE_COUNT],
    pub node_tiles: [[TileId; NODE_TILE_DEGREE]; NODE_COUNT],
    pub tile_nodes: [[NodeId; TILE_DEGREE]; TILE_COUNT],
    pub node_ports: [PortType; NODE_COUNT],
    pub tile_resources: [Option<Resource>; TILE_COUNT],
    pub tile_numbers: [Option<u8>; TILE_COUNT],
    pub desert_tile: TileId,
}

/// The adjacency tables only name nodes, edges and tiles that exist (or the absent marker where allowed).
pub open spec fn topology_wf(
    node_edges: [[EdgeId; NODE_DEGREE]; NODE_COUNT],
    edge_nodes: [[NodeId; 2]; EDGE_COUNT],
    node_tiles: [[TileId; NODE_TILE_DEGREE]; NODE_COUNT],
    tile_nodes: [[NodeId; TILE_DEGREE]; TILE_COUNT],
) -> bool {
    &&& forall|n: int, k: int|
        0 <= n < NODE_COUNT && 0 <= k < NODE_DEGREE ==> {
            let e = #[trigger] node_edges@[n]@[k];
            e == INVALID_EDGE || e < EDGE_COUNT
        }
    &&& forall|e: int, k: int|
        0 <= e < EDGE_COUNT && 0 <= k < 2 ==> #[trigger] edge_nodes@[e]@[k] < NODE_COUNT
    &&& forall|n: int, k: int|
        0 <= n < NODE_COUNT && 0 <= k < NODE_TILE_DEGREE ==> {
            let t = #[trigger] node_tiles@[n]@[k];
            t == INVALID_TILE || t < TILE_COUNT
        }
    &&& forall|t: int, k: int|
        0 <= t < TILE_COUNT && 0 <= k < TILE_DEGREE ==> {
            let n = #[trigger] tile_nodes@[t]@[k];
            n == INVALID_NODE || n < NODE_COUNT
        }
}

impl Board {
    /// The board's adjacency tables are in range.
    pub open spec fn wf(&self) -> bool {
        topology_wf(self.node_edges, self.edge_nodes, self.node_tiles, self.tile_nodes)
    }

    pub fn standard() -> (board: Board)
        ensures
            board.is_standard(),
            board.wf(),
    {
        proof {
            lemma_standard_topology_wf();
        }
        Board {
            node_edges: NODE_EDGES,
            edge_nodes: EDGE_NODES,
            node_tiles: NODE_TILES,
            tile_nodes: TILE_NODES,
            node_ports: NODE_PORTS,
            tile_resources: tile_resources(),
            tile_numbers: tile_numbers(),
            desert_tile: DESERT_TILE,
        }
    }

    /// This is the standard board: the fixed topology, ports, tiles and numbers, the desert in the centre.
    pub open spec fn is_standard(&self) -> bool {
        &&& self.node_edges == NODE_EDGES
        &&& self.edge_nodes == EDGE_NODES
        &&& self.node_tiles == NODE_TILES
        &&& self.tile_nodes == TILE_NODES
        &&& self.node_ports == NODE_PORTS
        &&& self.tile_resources@ == standard_tile_resources()
        &&& self.tile_numbers@ == standard_tile_numbers()
        &&& self.desert_tile == DESERT_TILE
    }
}

pub proof fn lemma_standard_topology_wf()
    ensures
        topology_wf(NODE_EDGES, EDGE_NODES, NODE_TILES, TILE_NODES),
{
}

pub fn board_from_layout(
    tile_resources: [Option<Resource>; TILE_COUNT],
    tile_numbers: [Option<u8>; TILE_COUNT],
    node_ports: [PortType; NODE_COUNT],
    desert_tile: TileId,
) -> (board: Board)
    ensures
        board == (Board {
            node_edges: NODE_EDGES,
            edge_nodes: EDGE_NODES,
            node_tiles: NODE_TILES,
            tile_nodes: TILE_NODES,
            node_ports,
            tile_resources,
            tile_numbers,
            desert_tile,
        }),
        board.wf(),
{
    proof {
        lemma_standard_topology_wf();
    }
    Board {
        node_edges: NODE_EDGES,
        edge_nodes: EDGE_NODES,
        node_tiles: NODE_TILES,
        tile_nodes: TILE_NODES,
        node_ports,
        tile_resources,
        tile_numbers,
        desert_tile,
    }
}

/// The cube coordinates of a tile, or the origin for a tile that does not exist.
pub open spec fn spec_tile_coords(tile: TileId) -> (i8, i8, i8) {
    if (tile as int) < TILE_COUNT {
        TILE_COORDS@[tile as int]
    } else {
        (0, 0, 0)
    }
}

pub fn tile_coords(tile: TileId) -> (coords: (i8, i8, i8))
    ensures
        coords == spec_tile_coords(tile),
{
    if (tile as usize) < TILE_COUNT {
        TILE_COORDS[tile as usize]
    } else {
        (0, 0, 0)
    }
}

} // verus!
