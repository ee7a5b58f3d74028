use vstd::prelude::*;

use crate::types::{EdgeId, NodeId, TileId};

verus! {

pub const KIND_SHIFT: u32 = 27;
pub const PAYLOAD_MASK: u32 = 0x07ff_ffff;

#[derive(Copy, Clone, Debug, PartialEq, Eq, Hash, Structural)]
pub enum ActionKind {
    Invalid,
    BuildRoad,
    BuildSettlement,
    BuildCity,
    MoveRobber,
    MaritimeTrade,
    DomesticTrade,
    RollDice,
    EndTurn,
    BuyDevCard,
    PlayDevCard,
}

/// The number that encodes an action kind in the high bits of a code.
pub open spec fn kind_code(kind: ActionKind) -> u32 {
    match kind {
        ActionKind::Invalid => 0,
        ActionKind::BuildRoad => 1,
        ActionKind::BuildSettlement => 2,
        ActionKind::BuildCity => 3,
        ActionKind::MoveRobber => 4,
        ActionKind::MaritimeTrade => 5,
        ActionKind::DomesticTrade => 6,
        ActionKind::RollDice => 7,
        ActionKind::EndTurn => 8,
        ActionKind::BuyDevCard => 9,
        ActionKind::PlayDevCard => 10,
    }
}

/// The kind that a high-bits number decodes to; unknown numbers decode to `Invalid`.
pub open spec fn kind_of_code(code: u32) -> ActionKind {
    if code == 1 {
        ActionKind::BuildRoad
    } else if code == 2 {
        ActionKind::BuildSettlement
    } else if code == 3 {
        ActionKind::BuildCity
    } else if code == 4 {
        ActionKind::MoveRobber
    } else if code == 5 {
        ActionKind::MaritimeTrade
    } else if code == 6 {
        ActionKind::DomesticTrade
    } else if code == 7 {
        ActionKind::RollDice
    } else if code == 8 {
        ActionKind::EndTurn
    } else if code == 9 {
        ActionKind::BuyDevCard
    } else if code == 10 {
        ActionKind::PlayDevCard
    } else {
        ActionKind::Invalid
    }
}

/// The 32-bit encoding of a kind and a payload: the kind above bit 27, the low 27 bits of the payload below.
pub open spec fn encode(kind: ActionKind, payload: u32) -> u32 {
    (kind_code(kind) << KIND_SHIFT) | (payload & PAYLOAD_MASK)
}

#[derive(Copy, Clone, Debug, PartialEq, Eq, Hash, Structural)]
pub struct ActionCode(pub u32);

fn kind_number(kind: ActionKind) -> (code: u32)
    ensures
        code == kind_code(kind),
        code <= 10,
{
    match kind {
        ActionKind::Invalid => 0,
        ActionKind::BuildRoad => 1,
        ActionKind::BuildSettlement => 2,
        ActionKind::BuildCity => 3,
        ActionKind::MoveRobber => 4,
        ActionKind::MaritimeTrade => 5,
        ActionKind::DomesticTrade => 6,
        ActionKind::RollDice => 7,
        ActionKind::EndTurn => 8,
        ActionKind::BuyDevCard => 9,
        ActionKind::PlayDevCard => 10,
    }
}

proof fn lemma_encode_fields(c: u32, p: u32)
    requires
        c <= 10,
    ensures
        ((c << 27u32) | (p & 0x07ff_ffffu32)) >> 27u32 == c,
        ((c << 27u32) | (p & 0x07ff_ffffu32)) & 0x07ff_ffffu32 == p & 0x07ff_ffffu32,
{
    assert(((c << 27u32) | (p & 0x07ff_ffffu32)) >> 27u32 == c) by (bit_vector)
        requires
            c <= 10,
    ;
    assert(((c << 27u32) | (p & 0x07ff_ffffu32)) & 0x07ff_ffffu32 == p & 0x07ff_ffffu32)
        by (bit_vector)
        requires
            c <= 10,
    ;
}

proof fn lemma_decode_of_code(kind: ActionKind)
    ensures
        kind_of_code(kind_code(kind)) == kind,
{
}

impl ActionCode {
    pub fn new(kind: ActionKind, payload: u32) -> (code: Self)
        ensures
            code.0 == encode(kind, payload),
    {
        ActionCode((kind_number(kind) << KIND_SHIFT) | (payload & PAYLOAD_MASK))
    }

    pub fn kind(self) -> (kind: ActionKind)
        ensures
            kind == kind_of_code(self.0 >> KIND_SHIFT),
    {
        let high = self.0 >> KIND_SHIFT;
        if high == 1 {
            ActionKind::BuildRoad
        } else if high == 2 {
            ActionKind::BuildSettlement
        } else if high == 3 {
            ActionKind::BuildCity
        } else if high == 4 {
            ActionKind::MoveRobber
        } else if high == 5 {
            ActionKind::MaritimeTrade
        } else if high == 6 {
            ActionKind::DomesticTrade
        } else if high == 7 {
            ActionKind::RollDice
        } else if high == 8 {
            ActionKind::EndTurn
        } else if high == 9 {
            ActionKind::BuyDevCard
        } else if high == 10 {
            ActionKind::PlayDevCard
        } else {
            ActionKind::Invalid
        }
    }

    pub fn payload(self) -> (payload: u32)
        ensures
            payload == self.0 & PAYLOAD_MASK,
    {
        self.0 & PAYLOAD_MASK
    }

    pub fn build_road(edge: EdgeId) -> (code: Self)
        ensures
            code.0 == encode(ActionKind::BuildRoad, edge as u32),
    {
        Self::new(ActionKind::BuildRoad, edge as u32)
    }

    pub fn build_settlement(node: NodeId) -> (code: Self)
        ensures
            code.0 == encode(ActionKind::BuildSettlement, node as u32),
    {
        Self::new(ActionKind::BuildSettlement, node as u32)
    }

    pub fn build_city(node: NodeId) -> (code: Self)
        ensures
            code.0 == encode(ActionKind::BuildCity, node as u32),
    {
        Self::new(ActionKind::BuildCity, node as u32)
    }

    pub fn move_robber(tile: TileId) -> (code: Self)
        ensures
            code.0 == encode(ActionKind::MoveRobber, tile as u32),
    {
        Self::new(ActionKind::MoveRobber, tile as u32)
    }
}

/// Decoding an encoded action gives back its kind, and its payload cut to the low 27 bits;
/// a payload that fits in 27 bits comes back unchanged.
pub proof fn lemma_action_code_round_trip(kind: ActionKind, payload: u32)
    ensures
        kind_of_code(encode(kind, payload) >> KIND_SHIFT) == kind,
        encode(kind, payload) & PAYLOAD_MASK == payload & PAYLOAD_MASK,
        payload <= PAYLOAD_MASK ==> encode(kind, payload) & PAYLOAD_MASK == payload,
{
    lemma_encode_fields(kind_code(kind), payload);
    lemma_decode_of_code(kind);
    if payload <= PAYLOAD_MASK {
        assert(payload <= 0x07ff_ffffu32 ==> payload & 0x07ff_ffffu32 == payload) by (bit_vector);
    }
}

impl From<u32> for ActionCode {
    fn from(value: u32) -> (code: Self) {
        ActionCode(value)
    }
}

impl vstd::std_specs::convert::FromSpecImpl<u32> for ActionCode {
    open spec fn obeys_from_spec() -> bool {
        true
    }

    open spec fn from_spec(value: u32) -> Self {
        ActionCode(value)
    }
}

impl From<ActionCode> for u32 {
    fn from(value: ActionCode) -> (raw: Self) {
        value.0
    }
}

impl vstd::std_specs::convert::FromSpecImpl<ActionCode> for u32 {
    open spec fn obeys_from_spec() -> bool {
        true
    }

    open spec fn from_spec(value: ActionCode) -> Self {
        value.0
    }
}

} // verus!
