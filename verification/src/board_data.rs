use vstd::prelude::*;

use crate::types::{
    EdgeId, NodeId, PortType, Resource, TileId, EDGE_COUNT, NODE_COUNT, TILE_COUNT,
};

verus! {

/// The edges that meet at each node, in increasing order; a node on the coast has two.
pub const NODE_EDGES: [[EdgeId; 3]; NODE_COUNT] = [
    [0, 1, 2], [0, 3, 4], [3, 5, 6], [5, 7, 8], [7, 9, 10], [1, 9, 11],
    [4, 12, 13], [12, 14, 15], [14, 16, 17], [6, 16, 18], [18, 19, 20], [19, 21, 22],
    [8, 21, 23], [23, 24, 25], [24, 26, 27], [10, 26, 28], [11, 29, 30], [28, 31, 32],
    [29, 31, 33], [34, 35, 36], [2, 34, 37], [30, 35, 38], [37, 39, 40], [13, 39, 41],
    [15, 42, 43], [42, 44, 255], [44, 45, 255], [17, 45, 46], [46, 47, 255], [20, 47, 48],
    [48, 49, 255], [49, 50, 255], [22, 50, 51], [51, 52, 255], [25, 52, 53], [53, 54, 255],
    [54, 55, 255], [27, 55, 56], [56, 57, 255], [32, 57, 58], [33, 59, 60], [58, 61, 255],
    [59, 61, 255], [38, 62, 63], [60, 62, 255], [64, 65, 255], [36, 64, 66], [63, 65, 255],
    [66, 67, 255], [40, 67, 68], [68, 69, 255], [69, 70, 255], [41, 70, 71], [43, 71, 255],
];

/// The two end nodes of each edge, the smaller first.
pub const EDGE_NODES: [[NodeId; 2]; EDGE_COUNT] = [
    [0, 1], [0, 5], [0, 20], [1, 2], [1, 6], [2, 3], [2, 9], [3, 4],
    [3, 12], [4, 5], [4, 15], [5, 16], [6, 7], [6, 23], [7, 8], [7, 24],
    [8, 9], [8, 27], [9, 10], [10, 11], [10, 29], [11, 12], [11, 32], [12, 13],
    [13, 14], [13, 34], [14, 15], [14, 37], [15, 17], [16, 18], [16, 21], [17, 18],
    [17, 39], [18, 40], [19, 20], [19, 21], [19, 46], [20, 22], [21, 43], [22, 23],
    [22, 49], [23, 52], [24, 25], [24, 53], [25, 26], [26, 27], [27, 28], [28, 29],
    [29, 30], [30, 31], [31, 32], [32, 33], [33, 34], [34, 35], [35, 36], [36, 37],
    [37, 38], [38, 39], [39, 41], [40, 42], [40, 44], [41, 42], [43, 44], [43, 47],
    [45, 46], [45, 47], [46, 48], [48, 49], [49, 50], [50, 51], [51, 52], [52, 53],
];

/// The tiles that touch each node, in increasing order.
pub const NODE_TILES: [[TileId; 3]; NODE_COUNT] = [
    [0, 5, 6], [0, 1, 6], [0, 1, 2], [0, 2, 3], [0, 3, 4], [0, 4, 5],
    [1, 6, 18], [1, 7, 18], [1, 7, 8], [1, 2, 8], [2, 8, 9], [2, 9, 10],
    [2, 3, 10], [3, 10, 11], [3, 11, 12], [3, 4, 12], [4, 5, 14], [4, 12, 13],
    [4, 13, 14], [5, 15, 16], [5, 6, 16], [5, 14, 15], [6, 16, 17], [6, 17, 18],
    [7, 18, 255], [7, 255, 255], [7, 255, 255], [7, 8, 255], [8, 255, 255], [8, 9, 255],
    [9, 255, 255], [9, 255, 255], [9, 10, 255], [10, 255, 255], [10, 11, 255], [11, 255, 255],
    [11, 255, 255], [11, 12, 255], [12, 255, 255], [12, 13, 255], [13, 14, 255], [13, 255, 255],
    [13, 255, 255], [14, 15, 255], [14, 255, 255], [15, 255, 255], [15, 16, 255], [15, 255, 255],
    [16, 255, 255], [16, 17, 255], [17, 255, 255], [17, 255, 255], [17, 18, 255], [18, 255, 255],
];

/// The six corners of each tile, clockwise from the top.
pub const TILE_NODES: [[NodeId; 6]; TILE_COUNT] = [
    [0, 1, 2, 3, 4, 5], [6, 7, 8, 9, 2, 1], [2, 9, 10, 11, 12, 3],
    [4, 3, 12, 13, 14, 15], [16, 5, 4, 15, 17, 18], [19, 20, 0, 5, 16, 21],
    [22, 23, 6, 1, 0, 20], [24, 25, 26, 27, 8, 7], [8, 27, 28, 29, 10, 9],
    [10, 29, 30, 31, 32, 11], [12, 11, 32, 33, 34, 13], [14, 13, 34, 35, 36, 37],
    [17, 15, 14, 37, 38, 39], [40, 18, 17, 39, 41, 42], [43, 21, 16, 18, 40, 44],
    [45, 46, 19, 21, 43, 47], [48, 49, 22, 20, 19, 46], [50, 51, 52, 23, 22, 49],
    [52, 53, 24, 7, 6, 23],
];

pub const NODE_PORTS: [PortType; NODE_COUNT] = [
    PortType::NoPort, PortType::NoPort, PortType::NoPort, PortType::NoPort, PortType::NoPort, PortType::NoPort,
    PortType::NoPort, PortType::NoPort, PortType::NoPort, PortType::NoPort, PortType::NoPort, PortType::NoPort,
    PortType::NoPort, PortType::NoPort, PortType::NoPort, PortType::NoPort, PortType::NoPort, PortType::NoPort,
    PortType::NoPort, PortType::NoPort, PortType::NoPort, PortType::NoPort, PortType::NoPort, PortType::NoPort,
    PortType::NoPort, PortType::ThreeToOne, PortType::ThreeToOne, PortType::NoPort, PortType::Wool, PortType::Wool,
    PortType::NoPort, PortType::NoPort, PortType::ThreeToOne, PortType::ThreeToOne, PortType::NoPort, PortType::ThreeToOne,
    PortType::ThreeToOne, PortType::NoPort, PortType::Brick, PortType::Brick, PortType::Lumber, PortType::NoPort,
    PortType::NoPort, PortType::NoPort, PortType::Lumber, PortType::ThreeToOne, PortType::NoPort, PortType::ThreeToOne,
    PortType::Grain, PortType::Grain, PortType::NoPort, PortType::NoPort, PortType::Ore, PortType::Ore,
];

/// The resource of each tile of the standard board; the centre tile is the desert.
pub open spec fn standard_tile_resources() -> Seq<Option<Resource>> {
    seq![
        None, Some(Resource::Lumber), Some(Resource::Wool), Some(Resource::Grain),
        Some(Resource::Brick), Some(Resource::Ore), Some(Resource::Wool), Some(Resource::Lumber),
        Some(Resource::Grain), Some(Resource::Brick), Some(Resource::Ore), Some(Resource::Wool),
        Some(Resource::Lumber), Some(Resource::Grain), Some(Resource::Brick), Some(Resource::Wool),
        Some(Resource::Grain), Some(Resource::Ore), Some(Resource::Lumber),
    ]
}

/// The number token of each tile of the standard board; the desert has none.
pub open spec fn standard_tile_numbers() -> Seq<Option<u8>> {
    seq![
        None, Some(5), Some(2), Some(6), Some(3), Some(8), Some(10), Some(9),
        Some(12), Some(11), Some(4), Some(8), Some(10), Some(9), Some(4), Some(5),
        Some(6), Some(3), Some(11),
    ]
}

pub fn tile_resources() -> (resources: [Option<Resource>; TILE_COUNT])
    ensures
        resources@ == standard_tile_resources(),
{
    let resources = [
        None, Some(Resource::Lumber), Some(Resource::Wool), Some(Resource::Grain),
        Some(Resource::Brick), Some(Resource::Ore), Some(Resource::Wool), Some(Resource::Lumber),
        Some(Resource::Grain), Some(Resource::Brick), Some(Resource::Ore), Some(Resource::Wool),
        Some(Resource::Lumber), Some(Resource::Grain), Some(Resource::Brick), Some(Resource::Wool),
        Some(Resource::Grain), Some(Resource::Ore), Some(Resource::Lumber),
    ];
    assert(resources@ =~= standard_tile_resources());
    resources
}

pub fn tile_numbers() -> (numbers: [Option<u8>; TILE_COUNT])
    ensures
        numbers@ == standard_tile_numbers(),
{
    let numbers = [
        None, Some(5), Some(2), Some(6), Some(3), Some(8), Some(10), Some(9),
        Some(12), Some(11), Some(4), Some(8), Some(10), Some(9), Some(4), Some(5),
        Some(6), Some(3), Some(11),
    ];
    assert(numbers@ =~= standard_tile_numbers());
    numbers
}

pub const DESERT_TILE: TileId = 0;

/// Cube coordinates of each tile.
pub const TILE_COORDS: [(i8, i8, i8); TILE_COUNT] = [
    (0, 0, 0), (1, -1, 0), (0, -1, 1), (-1, 0, 1), (-1, 1, 0), (0, 1, -1),
    (1, 0, -1), (2, -2, 0), (1, -2, 1), (0, -2, 2), (-1, -1, 2), (-2, 0, 2),
    (-2, 1, 1), (-2, 2, 0), (-1, 2, -1), (0, 2, -2), (1, 1, -2), (2, 0, -2),
    (2, -1, -1),
];

} // verus!
