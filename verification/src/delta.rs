use vstd::prelude::*;

use crate::types::{BuildingLevel, EdgeId, NodeId, PlayerId, Resource, TileId, TurnPhase, NO_PLAYER};

verus! {

pub const MAX_ROAD_DELTAS: usize = 32;
pub const MAX_BUILDING_DELTAS: usize = 32;
pub const MAX_RESOURCE_DELTAS: usize = 256;
pub const MAX_BANK_DELTAS: usize = 256;

#[derive(Copy, Clone, Debug)]
pub(crate) struct RoadDelta {
    pub(crate) edge: EdgeId,
    pub(crate) prev_owner: PlayerId,
}

impl Default for RoadDelta {
    fn default() -> Self {
        Self { edge: 0, prev_owner: NO_PLAYER }
    }
}

#[derive(Copy, Clone, Debug)]
pub(crate) struct BuildingDelta {
    pub(crate) node: NodeId,
    pub(crate) prev_owner: PlayerId,
    pub(crate) prev_level: BuildingLevel,
}

impl Default for BuildingDelta {
    fn default() -> Self {
        Self { node: 0, prev_owner: NO_PLAYER, prev_level: BuildingLevel::Empty }
    }
}

#[derive(Copy, Clone, Debug)]
pub(crate) struct ResourceDelta {
    pub(crate) player: PlayerId,
    pub(crate) resource: Resource,
    pub(crate) prev: u8,
}

impl Default for ResourceDelta {
    fn default() -> Self {
        Self { player: 0, resource: Resource::Brick, prev: 0 }
    }
}

#[derive(Copy, Clone, Debug)]
pub(crate) struct BankDelta {
    pub(crate) resource: Resource,
    pub(crate) prev: u8,
}

impl Default for BankDelta {
    fn default() -> Self {
        Self { resource: Resource::Brick, prev: 0 }
    }
}

#[derive(Copy, Clone, Debug)]
pub(crate) struct TurnDelta {
    pub(crate) player: PlayerId,
    pub(crate) phase: TurnPhase,
}

/// A record of the previous values that a sequence of state changes overwrote, so that they can be undone.
#[derive(Clone, Debug)]
pub struct Delta {
    road_deltas: [RoadDelta; MAX_ROAD_DELTAS],
    road_len: usize,
    building_deltas: [BuildingDelta; MAX_BUILDING_DELTAS],
    building_len: usize,
    resource_deltas: [ResourceDelta; MAX_RESOURCE_DELTAS],
    resource_len: usize,
    bank_deltas: [BankDelta; MAX_BANK_DELTAS],
    bank_len: usize,
    turn: Option<TurnDelta>,
    robber_tile: Option<TileId>,
}

impl Default for Delta {
    fn default() -> (d: Self)
        ensures
            d.wf(),
            d.is_empty(),
    {
        Self {
            road_deltas: [RoadDelta::default(); MAX_ROAD_DELTAS],
            road_len: 0,
            building_deltas: [BuildingDelta::default(); MAX_BUILDING_DELTAS],
            building_len: 0,
            resource_deltas: [ResourceDelta::default(); MAX_RESOURCE_DELTAS],
            resource_len: 0,
            bank_deltas: [BankDelta::default(); MAX_BANK_DELTAS],
            bank_len: 0,
            turn: None,
            robber_tile: None,
        }
    }
}

impl Delta {
    /// The record counts are within the capacities.
    pub closed spec fn wf(&self) -> bool {
        &&& self.road_len <= MAX_ROAD_DELTAS
        &&& self.building_len <= MAX_BUILDING_DELTAS
        &&& self.resource_len <= MAX_RESOURCE_DELTAS
        &&& self.bank_len <= MAX_BANK_DELTAS
    }

    /// The recorded (edge, previous owner) pairs, oldest first.
    pub closed spec fn road_log(&self) -> Seq<(EdgeId, PlayerId)> {
        Seq::new(
            self.road_len as nat,
            |i: int| (self.road_deltas@[i].edge, self.road_deltas@[i].prev_owner),
        )
    }

    /// The recorded (node, previous owner, previous level) triples, oldest first.
    pub closed spec fn building_log(&self) -> Seq<(NodeId, PlayerId, BuildingLevel)> {
        Seq::new(
            self.building_len as nat,
            |i: int|
                (
                    self.building_deltas@[i].node,
                    self.building_deltas@[i].prev_owner,
                    self.building_deltas@[i].prev_level,
                ),
        )
    }

    /// The recorded (player, resource, previous count) triples, oldest first.
    pub closed spec fn resource_log(&self) -> Seq<(PlayerId, Resource, u8)> {
        Seq::new(
            self.resource_len as nat,
            |i: int|
                (
                    self.resource_deltas@[i].player,
                    self.resource_deltas@[i].resource,
                    self.resource_deltas@[i].prev,
                ),
        )
    }

    /// The recorded (resource, previous bank count) pairs, oldest first.
    pub closed spec fn bank_log(&self) -> Seq<(Resource, u8)> {
        Seq::new(
            self.bank_len as nat,
            |i: int| (self.bank_deltas@[i].resource, self.bank_deltas@[i].prev),
        )
    }

    /// The recorded (turn player, phase), if any.
    pub closed spec fn turn_record(&self) -> Option<(PlayerId, TurnPhase)> {
        match self.turn {
            Some(t) => Some((t.player, t.phase)),
            None => None,
        }
    }

    /// The recorded robber tile, if any.
    pub closed spec fn robber_record(&self) -> Option<TileId> {
        self.robber_tile
    }

    /// Nothing is recorded.
    pub open spec fn is_empty(&self) -> bool {
        &&& self.road_log().len() == 0
        &&& self.building_log().len() == 0
        &&& self.resource_log().len() == 0
        &&& self.bank_log().len() == 0
        &&& self.turn_record() is None
        &&& self.robber_record() is None
    }

    pub proof fn lemma_capacities(&self)
        requires
            self.wf(),
        ensures
            self.road_log().len() <= MAX_ROAD_DELTAS,
            self.building_log().len() <= MAX_BUILDING_DELTAS,
            self.resource_log().len() <= MAX_RESOURCE_DELTAS,
            self.bank_log().len() <= MAX_BANK_DELTAS,
    {
    }

    pub fn reset(&mut self)
        ensures
            final(self).wf(),
            final(self).is_empty(),
    {
        self.road_len = 0;
        self.building_len = 0;
        self.resource_len = 0;
        self.bank_len = 0;
        self.turn = None;
        self.robber_tile = None;
    }

    pub fn record_road(&mut self, edge: EdgeId, prev_owner: PlayerId)
        requires
            old(self).wf(),
        ensures
            final(self).wf(),
            final(self).road_log() == if old(self).road_log().len() < MAX_ROAD_DELTAS {
                old(self).road_log().push((edge, prev_owner))
            } else {
                old(self).road_log()
            },
            final(self).building_log() == old(self).building_log(),
            final(self).resource_log() == old(self).resource_log(),
            final(self).bank_log() == old(self).bank_log(),
            final(self).turn_record() == old(self).turn_record(),
            final(self).robber_record() == old(self).robber_record(),
    {
        if self.road_len >= MAX_ROAD_DELTAS {
            return;
        }
        self.road_deltas[self.road_len] = RoadDelta { edge, prev_owner };
        self.road_len += 1;
        assert(self.road_log() =~= old(self).road_log().push((edge, prev_owner)));
    }

    pub fn record_building(&mut self, node: NodeId, prev_owner: PlayerId, prev_level: BuildingLevel)
        requires
            old(self).wf(),
        ensures
            final(self).wf(),
            final(self).building_log() == if old(self).building_log().len() < MAX_BUILDING_DELTAS {
                old(self).building_log().push((node, prev_owner, prev_level))
            } else {
                old(self).building_log()
            },
            final(self).road_log() == old(self).road_log(),
            final(self).resource_log() == old(self).resource_log(),
            final(self).bank_log() == old(self).bank_log(),
            final(self).turn_record() == old(self).turn_record(),
            final(self).robber_record() == old(self).robber_record(),
    {
        if self.building_len >= MAX_BUILDING_DELTAS {
            return;
        }
        self.building_deltas[self.building_len] = BuildingDelta { node, prev_owner, prev_level };
        self.building_len += 1;
        assert(self.building_log() =~= old(self).building_log().push(
            (node, prev_owner, prev_level),
        ));
    }

    pub fn record_resource(&mut self, player: PlayerId, resource: Resource, prev: u8)
        requires
            old(self).wf(),
        ensures
            final(self).wf(),
            final(self).resource_log() == if old(self).resource_log().len() < MAX_RESOURCE_DELTAS {
                old(self).resource_log().push((player, resource, prev))
            } else {
                old(self).resource_log()
            },
            final(self).road_log() == old(self).road_log(),
            final(self).building_log() == old(self).building_log(),
            final(self).bank_log() == old(self).bank_log(),
            final(self).turn_record() == old(self).turn_record(),
            final(self).robber_record() == old(self).robber_record(),
    {
        if self.resource_len >= MAX_RESOURCE_DELTAS {
            return;
        }
        self.resource_deltas[self.resource_len] = ResourceDelta { player, resource, prev };
        self.resource_len += 1;
        assert(self.resource_log() =~= old(self).resource_log().push((player, resource, prev)));
    }

    pub fn record_bank(&mut self, resource: Resource, prev: u8)
        requires
            old(self).wf(),
        ensures
            final(self).wf(),
            final(self).bank_log() == if old(self).bank_log().len() < MAX_BANK_DELTAS {
                old(self).bank_log().push((resource, prev))
            } else {
                old(self).bank_log()
            },
            final(self).road_log() == old(self).road_log(),
            final(self).building_log() == old(self).building_log(),
            final(self).resource_log() == old(self).resource_log(),
            final(self).turn_record() == old(self).turn_record(),
            final(self).robber_record() == old(self).robber_record(),
    {
        if self.bank_len >= MAX_BANK_DELTAS {
            return;
        }
        self.bank_deltas[self.bank_len] = BankDelta { resource, prev };
        self.bank_len += 1;
        assert(self.bank_log() =~= old(self).bank_log().push((resource, prev)));
    }

    pub fn record_turn(&mut self, player: PlayerId, phase: TurnPhase)
        requires
            old(self).wf(),
        ensures
            final(self).wf(),
            final(self).turn_record() == Some((player, phase)),
            final(self).road_log() == old(self).road_log(),
            final(self).building_log() == old(self).building_log(),
            final(self).resource_log() == old(self).resource_log(),
            final(self).bank_log() == old(self).bank_log(),
            final(self).robber_record() == old(self).robber_record(),
    {
        self.turn = Some(TurnDelta { player, phase });
    }

    pub fn record_robber(&mut self, tile: TileId)
        requires
            old(self).wf(),
        ensures
            final(self).wf(),
            final(self).robber_record() == Some(tile),
            final(self).road_log() == old(self).road_log(),
            final(self).building_log() == old(self).building_log(),
            final(self).resource_log() == old(self).resource_log(),
            final(self).bank_log() == old(self).bank_log(),
            final(self).turn_record() == old(self).turn_record(),
    {
        self.robber_tile = Some(tile);
    }

    pub(crate) fn road_len(&self) -> (len: usize)
        requires
            self.wf(),
        ensures
            len == self.road_log().len(),
    {
        self.road_len
    }

    pub(crate) fn road_at(&self, i: usize) -> (entry: (EdgeId, PlayerId))
        requires
            self.wf(),
            i < self.road_log().len(),
        ensures
            entry == self.road_log()[i as int],
    {
        let d = self.road_deltas[i];
        (d.edge, d.prev_owner)
    }

    pub(crate) fn building_len(&self) -> (len: usize)
        requires
            self.wf(),
        ensures
            len == self.building_log().len(),
    {
        self.building_len
    }

    pub(crate) fn building_at(&self, i: usize) -> (entry: (NodeId, PlayerId, BuildingLevel))
        requires
            self.wf(),
            i < self.building_log().len(),
        ensures
            entry == self.building_log()[i as int],
    {
        let d = self.building_deltas[i];
        (d.node, d.prev_owner, d.prev_level)
    }

    pub(crate) fn resource_len(&self) -> (len: usize)
        requires
            self.wf(),
        ensures
            len == self.resource_log().len(),
    {
        self.resource_len
    }

    pub(crate) fn resource_at(&self, i: usize) -> (entry: (PlayerId, Resource, u8))
        requires
            self.wf(),
            i < self.resource_log().len(),
        ensures
            entry == self.resource_log()[i as int],
    {
        let d = self.resource_deltas[i];
        (d.player, d.resource, d.prev)
    }

    pub(crate) fn bank_len(&self) -> (len: usize)
        requires
            self.wf(),
        ensures
            len == self.bank_log().len(),
    {
        self.bank_len
    }

    pub(crate) fn bank_at(&self, i: usize) -> (entry: (Resource, u8))
        requires
            self.wf(),
            i < self.bank_log().len(),
        ensures
            entry == self.bank_log()[i as int],
    {
        let d = self.bank_deltas[i];
        (d.resource, d.prev)
    }

    pub(crate) fn turn(&self) -> (turn: Option<(PlayerId, TurnPhase)>)
        ensures
            turn == self.turn_record(),
    {
        match self.turn {
            Some(t) => Some((t.player, t.phase)),
            None => None,
        }
    }

    pub(crate) fn robber_tile(&self) -> (tile: Option<TileId>)
        ensures
            tile == self.robber_record(),
    {
        self.robber_tile
    }
}

} // verus!
