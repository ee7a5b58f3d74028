use vstd::prelude::*;

verus! {

pub const PLAYER_COUNT: usize = 4;
pub const RESOURCE_COUNT: usize = 5;
pub const DEV_CARD_COUNT: usize = 5;
pub const NODE_COUNT: usize = 54;
pub const EDGE_COUNT: usize = 72;
pub const TILE_COUNT: usize = 19;

pub type PlayerId = u8;
pub type NodeId = u8;
pub type EdgeId = u8;
pub type TileId = u8;

pub const NO_PLAYER: PlayerId = 255;
pub const INVALID_NODE: NodeId = 255;
pub const INVALID_EDGE: EdgeId = 255;
pub const INVALID_TILE: TileId = 255;

#[derive(Copy, Clone, Debug, PartialEq, Eq, Structural)]
pub enum Resource {
    Brick,
    Lumber,
    Ore,
    Grain,
    Wool,
}

/// The index of a resource in per-resource arrays.
pub open spec fn resource_index(r: Resource) -> int {
    match r {
        Resource::Brick => 0,
        Resource::Lumber => 1,
        Resource::Ore => 2,
        Resource::Grain => 3,
        Resource::Wool => 4,
    }
}

/// The resource stored at a per-resource array index, if any.
pub open spec fn resource_at(index: int) -> Option<Resource> {
    if index == 0 {
        Some(Resource::Brick)
    } else if index == 1 {
        Some(Resource::Lumber)
    } else if index == 2 {
        Some(Resource::Ore)
    } else if index == 3 {
        Some(Resource::Grain)
    } else if index == 4 {
        Some(Resource::Wool)
    } else {
        None
    }
}

impl Resource {
    pub const ALL: [Resource; RESOURCE_COUNT] = [
        Resource::Lumber,
        Resource::Brick,
        Resource::Wool,
        Resource::Grain,
        Resource::Ore,
    ];

    pub fn as_index(self) -> (index: usize)
        ensures
            index == resource_index(self),
            index < RESOURCE_COUNT,
    {
        match self {
            Resource::Brick => 0,
            Resource::Lumber => 1,
            Resource::Ore => 2,
            Resource::Grain => 3,
            Resource::Wool => 4,
        }
    }

    pub fn from_index(index: usize) -> (resource: Option<Resource>)
        ensures
            resource == resource_at(index as int),
            resource matches Some(r) ==> resource_index(r) == index,
    {
        match index {
            0 => Some(Resource::Brick),
            1 => Some(Resource::Lumber),
            2 => Some(Resource::Ore),
            3 => Some(Resource::Grain),
            4 => Some(Resource::Wool),
            _ => None,
        }
    }
}

/// Every resource sits at its own index, and every index below the count holds one.
pub proof fn lemma_resource_index_bijection()
    ensures
        forall|r: Resource| #[trigger] resource_at(resource_index(r)) == Some(r),
        forall|i: int| 0 <= i < RESOURCE_COUNT ==> (#[trigger] resource_at(i)) is Some,
        forall|r: Resource| 0 <= #[trigger] resource_index(r) < RESOURCE_COUNT,
{
}

pub const PYTHON_RESOURCE_ORDER: [Resource; RESOURCE_COUNT] = [
    Resource::Lumber,
    Resource::Brick,
    Resource::Wool,
    Resource::Grain,
    Resource::Ore,
];

#[derive(Copy, Clone, Debug, PartialEq, Eq, Structural)]
pub enum BuildingLevel {
    Empty,
    Settlement,
    City,
}

#[derive(Copy, Clone, Debug, PartialEq, Eq, Structural)]
pub enum TurnPhase {
    Setup,
    Roll,
    Main,
    Discard,
    Robber,
    Trade,
    End,
}

#[derive(Copy, Clone, Debug, PartialEq, Eq, Structural)]
pub enum PortType {
    NoPort,
    ThreeToOne,
    Brick,
    Lumber,
    Ore,
    Grain,
    Wool,
}

#[derive(Copy, Clone, Debug, PartialEq, Eq, Structural)]
pub enum DevCard {
    Knight,
    YearOfPlenty,
    Monopoly,
    RoadBuilding,
    VictoryPoint,
}

/// The index of a development card in per-card arrays.
pub open spec fn dev_card_index(card: DevCard) -> int {
    match card {
        DevCard::Knight => 0,
        DevCard::YearOfPlenty => 1,
        DevCard::Monopoly => 2,
        DevCard::RoadBuilding => 3,
        DevCard::VictoryPoint => 4,
    }
}

impl DevCard {
    pub const ALL: [DevCard; DEV_CARD_COUNT] = [
        DevCard::Knight,
        DevCard::YearOfPlenty,
        DevCard::Monopoly,
        DevCard::RoadBuilding,
        DevCard::VictoryPoint,
    ];

    pub fn as_index(self) -> (index: usize)
        ensures
            index == dev_card_index(self),
            index < DEV_CARD_COUNT,
    {
        match self {
            DevCard::Knight => 0,
            DevCard::YearOfPlenty => 1,
            DevCard::Monopoly => 2,
            DevCard::RoadBuilding => 3,
            DevCard::VictoryPoint => 4,
        }
    }
}

#[derive(Copy, Clone, Debug, PartialEq, Eq, Structural)]
pub enum ActionPrompt {
    BuildInitialSettlement,
    BuildInitialRoad,
    PlayTurn,
    Discard,
    MoveRobber,
    DecideTrade,
    DecideAcceptees,
}

} // verus!
