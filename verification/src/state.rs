use vstd::prelude::*;

use crate::bits::{has_bit, lemma_and_single_bit, lemma_or_bits, lemma_single_bit, lemma_zero_bits, lowest_set_bit};
use crate::board::Board;
use crate::board_data::DESERT_TILE;
use crate::delta::Delta;
use crate::rng::{shuffle_with_rng, shuffled, Pcg64};
use crate::types::{
    resource_index, ActionPrompt, BuildingLevel, DevCard, EdgeId, NodeId, PlayerId, Resource,
    TileId, TurnPhase, DEV_CARD_COUNT, EDGE_COUNT, INVALID_NODE, NODE_COUNT, NO_PLAYER,
    PLAYER_COUNT, RESOURCE_COUNT, TILE_COUNT,
};
use vstd::array::spec_array_update;

verus! {

pub const DEFAULT_BANK_RESOURCE: u8 = 19;
pub const DEV_DECK_SIZE: usize = 25;
pub const MAX_ROAD_COMPONENTS: usize = 54;

/// The one-bit mask of a node, or zero for a node that does not exist.
pub open spec fn spec_node_mask(node: NodeId) -> u64 {
    if node as int >= NODE_COUNT {
        0
    } else {
        1u64 << (node as u64)
    }
}

/// A node's mask holds exactly that node (no node, for a node that does not exist).
pub proof fn lemma_node_mask(node: NodeId)
    ensures
        forall|n: int| #[trigger] has_bit(spec_node_mask(node), n) == ((node as int) < NODE_COUNT && n == node),
{
    if (node as int) < NODE_COUNT {
        lemma_single_bit(node as u64);
    } else {
        lemma_zero_bits();
    }
}

fn node_mask(node: NodeId) -> (mask: u64)
    ensures
        mask == spec_node_mask(node),
{
    if node as usize >= NODE_COUNT {
        return 0;
    }
    1u64 << node
}

/// A mask shares a bit with a node's mask exactly when it holds that node.
proof fn lemma_meets_node(m: u64, node: NodeId)
    ensures
        (m & spec_node_mask(node) != 0) == ((node as int) < NODE_COUNT && has_bit(m, node as int)),
{
    if (node as int) < NODE_COUNT {
        lemma_and_single_bit(m, node as u64);
    } else {
        assert(m & 0u64 == 0) by (bit_vector);
    }
}

/// The development card deck, top card last.
#[derive(Copy, Clone, Debug, PartialEq, Eq)]
pub struct DevDeck {
    cards: [DevCard; DEV_DECK_SIZE],
    len: u8,
}

/// The standard deck in drawing order: 14 knights, 2 year of plenty, 2 road building, 2 monopoly, 5 victory points (drawn first).
pub open spec fn ordered_deck() -> Seq<DevCard> {
    Seq::new(
        DEV_DECK_SIZE as nat,
        |i: int|
            if i < 14 {
                DevCard::Knight
            } else if i < 16 {
                DevCard::YearOfPlenty
            } else if i < 18 {
                DevCard::RoadBuilding
            } else if i < 20 {
                DevCard::Monopoly
            } else {
                DevCard::VictoryPoint
            },
    )
}

impl View for DevDeck {
    type V = Seq<DevCard>;

    closed spec fn view(&self) -> Seq<DevCard> {
        self.cards@.subrange(0, self.len as int)
    }
}

impl DevDeck {
    #[verifier::type_invariant]
    closed spec fn inv(&self) -> bool {
        self.len as int <= DEV_DECK_SIZE
    }

    /// The deck holds at most the full set of cards.
    pub closed spec fn wf(&self) -> bool {
        self.len as int <= DEV_DECK_SIZE
    }

    pub proof fn lemma_size(&self)
        requires
            self.wf(),
        ensures
            self@.len() <= DEV_DECK_SIZE,
    {
    }

    pub fn check_wf(&self)
        ensures
            self.wf(),
    {
        proof {
            use_type_invariant(self);
        }
    }

    /// Every card slot, including those past the count.
    pub closed spec fn slots(&self) -> Seq<DevCard> {
        self.cards@
    }

    /// Two decks with the same slots and the same cards are the same value.
    pub proof fn lemma_same_value(&self, other: &Self)
        requires
            self.wf(),
            other.wf(),
            self.slots() == other.slots(),
            self@ == other@,
        ensures
            *self == *other,
    {
        assert(self@.len() == self.len as int);
        assert(other@.len() == other.len as int);
        assert(self.cards =~= other.cards);
    }

    /// Two full decks with the same cards are the same value.
    pub proof fn lemma_full_same(&self, other: &Self)
        requires
            self.wf(),
            other.wf(),
            self@ == other@,
            self@.len() == DEV_DECK_SIZE,
        ensures
            *self == *other,
    {
        assert(self.slots() =~= self@);
        assert(other.slots() =~= other@);
        self.lemma_same_value(other);
    }

    pub fn ordered() -> (deck: Self)
        ensures
            deck.wf(),
            deck@ == ordered_deck(),
            deck.slots() == ordered_deck(),
    {
        let mut cards = [DevCard::Knight; DEV_DECK_SIZE];
        let mut i: usize = 0;
        while i < DEV_DECK_SIZE
            invariant
                i <= DEV_DECK_SIZE,
                forall|k: int| 0 <= k < i ==> cards@[k] == ordered_deck()[k],
            decreases DEV_DECK_SIZE - i,
        {
            let card = if i < 14 {
                DevCard::Knight
            } else if i < 16 {
                DevCard::YearOfPlenty
            } else if i < 18 {
                DevCard::RoadBuilding
            } else if i < 20 {
                DevCard::Monopoly
            } else {
                DevCard::VictoryPoint
            };
            cards[i] = card;
            i = i + 1;
        }
        let deck = Self { cards, len: DEV_DECK_SIZE as u8 };
        assert(deck@ =~= ordered_deck());
        assert(deck.slots() =~= ordered_deck());
        deck
    }

    /// The full deck, shuffled with `rng`.
    pub(crate) fn shuffled(rng: &mut Pcg64) -> (deck: Self)
        ensures
            deck.wf(),
            (deck@, final(rng).spec_state()) == shuffled(
                ordered_deck(),
                old(rng).spec_state(),
                old(rng).spec_increment(),
            ),
            final(rng).spec_increment() == old(rng).spec_increment(),
    {
        let mut deck = Self::ordered();
        proof {
            assert(deck.cards@ =~= deck@);
        }
        shuffle_with_rng(&mut deck.cards, rng);
        assert(deck@ =~= deck.cards@);
        deck
    }

    /// The cards still in the deck, to be changed in place. A slice keeps its length, so the deck holds the
    /// slice's cards afterwards; Verus is not told that a slice keeps its length, so the clause is conditional.
    pub fn as_mut_slice(&mut self) -> (cards: &mut [DevCard])
        ensures
            cards@ == old(self)@,
            final(cards)@.len() == cards@.len() ==> final(self)@ == final(cards)@,
    {
        proof {
            use_type_invariant(&*self);
        }
        let len = self.len as usize;
        let all: &mut [DevCard] = &mut self.cards;
        let (head, _tail) = all.split_at_mut(len);
        head
    }

    pub fn is_empty(&self) -> (empty: bool)
        ensures
            empty == (self@.len() == 0),
    {
        proof {
            use_type_invariant(self);
        }
        self.len == 0
    }

    pub fn pop(&mut self) -> (card: Option<DevCard>)
        ensures
            final(self).wf(),
            old(self)@.len() == 0 ==> card is None && *final(self) == *old(self),
            old(self)@.len() > 0 ==> card == Some(old(self)@.last()) && final(self)@ == old(
                self,
            )@.drop_last(),
            final(self).slots() == old(self).slots(),
    {
        proof {
            use_type_invariant(&*self);
        }
        if self.len == 0 {
            return None;
        }
        self.len -= 1;
        let card = self.cards[self.len as usize];
        assert(self@ =~= old(self)@.drop_last());
        Some(card)
    }

    pub fn last(&self) -> (card: Option<&DevCard>)
        ensures
            self@.len() == 0 ==> card is None,
            self@.len() > 0 ==> card == Some(&self@.last()),
    {
        proof {
            use_type_invariant(self);
        }
        if self.len == 0 {
            return None;
        }
        Some(&self.cards[self.len as usize - 1])
    }
}

impl Default for DevDeck {
    fn default() -> (deck: Self)
        ensures
            deck.wf(),
            deck@ == ordered_deck(),
            deck.slots() == ordered_deck(),
    {
        Self::ordered()
    }
}

/// The connected road networks of one player, each a mask of the nodes it reaches.
#[derive(Copy, Clone, Debug, PartialEq, Eq)]
pub struct RoadComponents {
    masks: [u64; MAX_ROAD_COMPONENTS],
    len: u8,
}

impl View for RoadComponents {
    type V = Seq<u64>;

    closed spec fn view(&self) -> Seq<u64> {
        self.masks@.subrange(0, self.len as int)
    }
}

/// The index of the first component that holds `node`, if any.
pub open spec fn first_component_with(comps: Seq<u64>, node: NodeId) -> Option<int> {
    if exists|i: int| 0 <= i < comps.len() && has_bit(#[trigger] comps[i], node as int) {
        Some(
            choose|i: int|
                0 <= i < comps.len() && has_bit(#[trigger] comps[i], node as int) && forall|j: int|
                    0 <= j < i ==> !has_bit(#[trigger] comps[j], node as int),
        )
    } else {
        None
    }
}

/// Some component holds `node`.
pub open spec fn components_hold(comps: Seq<u64>, node: int) -> bool {
    exists|i: int| 0 <= i < comps.len() && has_bit(#[trigger] comps[i], node)
}

/// The union mask of a list of nodes.
pub open spec fn nodes_mask(nodes: Seq<NodeId>) -> u64
    decreases nodes.len(),
{
    if nodes.len() == 0 {
        0
    } else {
        nodes_mask(nodes.drop_last()) | spec_node_mask(nodes.last())
    }
}

/// The mask of a list of the board's nodes holds exactly the nodes on the list.
pub proof fn lemma_nodes_mask_bits(nodes: Seq<NodeId>)
    requires
        forall|i: int| 0 <= i < nodes.len() ==> (#[trigger] nodes[i] as int) < NODE_COUNT,
    ensures
        forall|n: int| #[trigger] has_bit(nodes_mask(nodes), n) == (0 <= n < NODE_COUNT && nodes.contains(n as NodeId)),
    decreases nodes.len(),
{
    if nodes.len() == 0 {
        lemma_zero_bits();
    } else {
        let rest = nodes.drop_last();
        assert forall|i: int| 0 <= i < rest.len() implies (#[trigger] rest[i] as int) < NODE_COUNT by {
            assert(rest[i] == nodes[i]);
        }
        lemma_nodes_mask_bits(rest);
        lemma_or_bits(nodes_mask(rest), spec_node_mask(nodes.last()));
        lemma_node_mask(nodes.last());
        assert(nodes[nodes.len() - 1] == nodes.last());
        assert forall|n: int| #[trigger] has_bit(nodes_mask(nodes), n) == (0 <= n < NODE_COUNT && nodes.contains(n as NodeId)) by {
            assert(has_bit(nodes_mask(nodes), n) == (has_bit(nodes_mask(rest), n) || has_bit(spec_node_mask(nodes.last()), n)));
            if 0 <= n < NODE_COUNT && nodes.contains(n as NodeId) {
                let i = choose|i: int| 0 <= i < nodes.len() && nodes[i] == n as NodeId;
                if i < nodes.len() - 1 {
                    assert(rest[i] == nodes[i]);
                    assert(rest.contains(n as NodeId));
                }
            }
            if 0 <= n < NODE_COUNT && rest.contains(n as NodeId) {
                let i = choose|i: int| 0 <= i < rest.len() && rest[i] == n as NodeId;
                assert(nodes[i] == rest[i]);
            }
        }
    }
}

impl RoadComponents {
    #[verifier::type_invariant]
    closed spec fn inv(&self) -> bool {
        self.len as int <= MAX_ROAD_COMPONENTS
    }

    /// The count is within the capacity.
    pub closed spec fn wf(&self) -> bool {
        self.len as int <= MAX_ROAD_COMPONENTS
    }

    pub fn check_wf(&self)
        ensures
            self.wf(),
    {
        proof {
            use_type_invariant(self);
        }
    }

    /// All mask slots, including those past the current count.
    pub closed spec fn slots(&self) -> Seq<u64> {
        self.masks@
    }

    /// Two network lists with the same slots and the same networks are the same value.
    pub proof fn lemma_same_value(&self, other: &Self)
        requires
            self.wf(),
            other.wf(),
            self.slots() == other.slots(),
            self@ == other@,
        ensures
            *self == *other,
    {
        assert(self.masks =~= other.masks);
        assert(self@.len() == self.len as int);
        assert(other@.len() == other.len as int);
    }

    pub proof fn lemma_view(&self)
        requires
            self.wf(),
        ensures
            self@.len() <= MAX_ROAD_COMPONENTS,
            self.slots().len() == MAX_ROAD_COMPONENTS,
            self@ == self.slots().subrange(0, self@.len() as int),
    {
    }

    /// The count is in range and no slot past the networks holds a node.
    pub open spec fn canonical(&self) -> bool {
        &&& self.wf()
        &&& forall|i: int| self@.len() <= i < MAX_ROAD_COMPONENTS ==> #[trigger] self.slots()[i] == 0
    }

    /// Two network lists with no stale slot and the same networks are the same value.
    pub proof fn lemma_canonical_same(&self, other: &Self)
        requires
            self.canonical(),
            other.canonical(),
            self@ == other@,
        ensures
            *self == *other,
    {
        self.lemma_view();
        other.lemma_view();
        assert forall|i: int| 0 <= i < MAX_ROAD_COMPONENTS implies self.slots()[i] == other.slots()[i] by {
            if i < self@.len() {
                assert(self@[i] == self.slots()[i]);
                assert(other@[i] == other.slots()[i]);
            }
        }
        assert(self.slots() =~= other.slots());
        self.lemma_same_value(other);
    }

    pub fn new() -> (comps: Self)
        ensures
            comps.wf(),
            comps@ == Seq::<u64>::empty(),
            comps.slots() == Seq::new(MAX_ROAD_COMPONENTS as nat, |i: int| 0u64),
            comps.canonical(),
    {
        let comps = Self { masks: [0; MAX_ROAD_COMPONENTS], len: 0 };
        assert forall|i: int| 0 <= i < MAX_ROAD_COMPONENTS implies comps.masks@[i] == 0u64 by {
            assert(comps.masks@[i] == 0);
        }
        assert(comps@ =~= Seq::<u64>::empty());
        assert(comps.slots() =~= Seq::new(MAX_ROAD_COMPONENTS as nat, |i: int| 0u64));
        comps
    }

    pub fn len(&self) -> (len: usize)
        ensures
            len == self@.len(),
    {
        proof {
            use_type_invariant(self);
        }
        self.len as usize
    }

    pub fn is_empty(&self) -> (empty: bool)
        ensures
            empty == (self@.len() == 0),
    {
        proof {
            use_type_invariant(self);
        }
        self.len == 0
    }

    pub fn push_mask(&mut self, mask: u64)
        requires
            mask != 0 ==> old(self)@.len() < MAX_ROAD_COMPONENTS,
        ensures
            final(self).wf(),
            mask == 0 ==> *final(self) == *old(self),
            mask != 0 ==> final(self)@ == old(self)@.push(mask) && final(self).slots() == old(
                self,
            ).slots().update(old(self)@.len() as int, mask),
            old(self).canonical() ==> final(self).canonical(),
    {
        proof {
            use_type_invariant(&*self);
        }
        if mask == 0 {
            return;
        }
        let len = self.len();
        self.masks[len] = mask;
        self.len += 1;
        assert(self@ =~= old(self)@.push(mask));
        assert(self.slots() =~= old(self).slots().update(len as int, mask));
    }

    pub fn push_singleton(&mut self, node: NodeId)
        requires
            old(self)@.len() < MAX_ROAD_COMPONENTS,
        ensures
            final(self).wf(),
            (node as int) >= NODE_COUNT ==> *final(self) == *old(self),
            (node as int) < NODE_COUNT ==> final(self)@ == old(self)@.push(spec_node_mask(node))
                && final(self).slots() == old(self).slots().update(
                old(self)@.len() as int,
                spec_node_mask(node),
            ),
            old(self).canonical() ==> final(self).canonical(),
    {
        proof {
            use_type_invariant(&*self);
        }
        proof {
            if (node as int) < NODE_COUNT {
                lemma_single_bit(node as u64);
            }
        }
        self.push_mask(node_mask(node));
    }

    pub fn push_nodes(&mut self, nodes: &[NodeId])
        requires
            nodes_mask(nodes@) != 0 ==> old(self)@.len() < MAX_ROAD_COMPONENTS,
        ensures
            final(self).wf(),
            nodes_mask(nodes@) == 0 ==> *final(self) == *old(self),
            nodes_mask(nodes@) != 0 ==> final(self)@ == old(self)@.push(nodes_mask(nodes@))
                && final(self).slots() == old(self).slots().update(
                old(self)@.len() as int,
                nodes_mask(nodes@),
            ),
            old(self).canonical() ==> final(self).canonical(),
    {
        proof {
            use_type_invariant(&*self);
        }
        let mut mask = 0u64;
        let mut i: usize = 0;
        while i < nodes.len()
            invariant
                i <= nodes@.len(),
                mask == nodes_mask(nodes@.subrange(0, i as int)),
            decreases nodes@.len() - i,
        {
            assert(nodes@.subrange(0, i + 1).drop_last() =~= nodes@.subrange(0, i as int));
            mask = mask | node_mask(nodes[i]);
            i = i + 1;
        }
        assert(nodes@.subrange(0, nodes@.len() as int) =~= nodes@);
        self.push_mask(mask);
    }

    pub fn contains_node(&self, node: NodeId) -> (found: bool)
        ensures
            found == ((node as int) < NODE_COUNT && components_hold(self@, node as int)),
    {
        proof {
            use_type_invariant(self);
        }
        let mask = node_mask(node);
        let len = self.len();
        let mut i: usize = 0;
        while i < len
            invariant
                self.wf(),
                len == self@.len(),
                i <= len,
                mask == spec_node_mask(node),
                forall|j: int|
                    0 <= j < i ==> !((node as int) < NODE_COUNT && has_bit(#[trigger] self@[j], node as int)),
            decreases len - i,
        {
            let component = self.masks[i];
            proof {
                lemma_meets_node(component, node);
                assert(component == self@[i as int]);
            }
            if component & mask != 0 {
                return true;
            }
            i = i + 1;
        }
        false
    }

    pub fn component_index(&self, node: NodeId) -> (index: Option<usize>)
        ensures
            (node as int) >= NODE_COUNT ==> index is None,
            (node as int) < NODE_COUNT ==> match index {
                Some(i) => first_component_with(self@, node) == Some(i as int),
                None => first_component_with(self@, node) is None,
            },
    {
        proof {
            use_type_invariant(self);
        }
        let mask = node_mask(node);
        let len = self.len();
        let mut i: usize = 0;
        while i < len
            invariant
                self.wf(),
                len == self@.len(),
                i <= len,
                mask == spec_node_mask(node),
                forall|j: int|
                    0 <= j < i ==> !((node as int) < NODE_COUNT && has_bit(#[trigger] self@[j], node as int)),
            decreases len - i,
        {
            let component = self.masks[i];
            proof {
                lemma_meets_node(component, node);
                assert(component == self@[i as int]);
            }
            if component & mask != 0 {
                proof {
                    let w = i as int;
                    assert(0 <= w < self@.len() && has_bit(self@[w], node as int) && forall|j: int|
                        0 <= j < w ==> !has_bit(#[trigger] self@[j], node as int));
                    let c = choose|k: int|
                        0 <= k < self@.len() && has_bit(#[trigger] self@[k], node as int) && forall|j: int|
                            0 <= j < k ==> !has_bit(#[trigger] self@[j], node as int);
                    if c < w {
                        assert(!has_bit(self@[c], node as int));
                    }
                    if w < c {
                        assert(!has_bit(self@[w], node as int));
                    }
                }
                return Some(i);
            }
            i = i + 1;
        }
        None
    }

    pub fn add_node_to_component(&mut self, idx: usize, node: NodeId)
        requires
            idx < MAX_ROAD_COMPONENTS,
        ensures
            final(self).wf(),
            final(self)@.len() == old(self)@.len(),
            final(self).slots() == old(self).slots().update(
                idx as int,
                old(self).slots()[idx as int] | spec_node_mask(node),
            ),
            final(self)@ == if (idx as int) < old(self)@.len() {
                old(self)@.update(idx as int, old(self)@[idx as int] | spec_node_mask(node))
            } else {
                old(self)@
            },
            old(self).canonical() && (idx as int) < old(self)@.len() ==> final(self).canonical(),
    {
        proof {
            use_type_invariant(&*self);
        }
        let updated = self.masks[idx] | node_mask(node);
        self.masks[idx] = updated;
        assert(self.slots() =~= old(self).slots().update(idx as int, updated));
        proof {
            if (idx as int) < old(self)@.len() {
                assert(self@ =~= old(self)@.update(idx as int, updated));
            } else {
                assert(self@ =~= old(self)@);
            }
        }
    }

    pub fn merge_components(&mut self, a_idx: usize, b_idx: usize)
        requires
            a_idx < MAX_ROAD_COMPONENTS,
            b_idx < MAX_ROAD_COMPONENTS,
        ensures
            final(self).wf(),
            ({
                let keep = if a_idx < b_idx { a_idx } else { b_idx };
                let remove = if a_idx < b_idx { b_idx } else { a_idx };
                let joined = old(self).slots().update(
                    keep as int,
                    old(self).slots()[keep as int] | old(self).slots()[remove as int],
                );
                let len = old(self)@.len() as int;
                &&& final(self)@ == removed_component(joined, len, remove as int).0
                &&& final(self).slots() == removed_component(joined, len, remove as int).1
            }),
            old(self).canonical() && (a_idx as int) < old(self)@.len() && (b_idx as int) < old(self)@.len() ==> final(self).canonical(),
    {
        proof {
            use_type_invariant(&*self);
        }
        let (keep, remove) = if a_idx < b_idx {
            (a_idx, b_idx)
        } else {
            (b_idx, a_idx)
        };
        let joined = self.masks[keep] | self.masks[remove];
        self.masks[keep] = joined;
        assert(self.slots() =~= old(self).slots().update(keep as int, joined));
        self.remove_component(remove);
    }

    pub fn remove_component(&mut self, idx: usize) -> (removed: u64)
        requires
            idx < MAX_ROAD_COMPONENTS,
        ensures
            final(self).wf(),
            removed == old(self).slots()[idx as int],
            final(self)@ == removed_component(old(self).slots(), old(self)@.len() as int, idx as int).0,
            final(self).slots() == removed_component(
                old(self).slots(),
                old(self)@.len() as int,
                idx as int,
            ).1,
            old(self).canonical() ==> final(self).canonical(),
    {
        proof {
            use_type_invariant(&*self);
        }
        let removed = self.masks[idx];
        let len = self.len();
        let mut i = idx + 1;
        while i < len
            invariant
                self.wf(),
                self.len == old(self).len,
                len == self.len,
                idx + 1 <= i,
                i <= len || i == idx + 1,
                self.slots().len() == MAX_ROAD_COMPONENTS,
                forall|k: int|
                    0 <= k < MAX_ROAD_COMPONENTS ==> #[trigger] self.slots()[k] == if idx <= k < i - 1 {
                        old(self).slots()[k + 1]
                    } else {
                        old(self).slots()[k]
                    },
            decreases len - i,
        {
            self.masks[i - 1] = self.masks[i];
            i = i + 1;
        }
        if len > 0 {
            self.masks[len - 1] = 0;
            self.len -= 1;
        }
        let ghost expected = removed_component(old(self).slots(), len as int, idx as int);
        assert(self.slots() =~= expected.1);
        assert(self@ =~= expected.0);
        removed
    }

    pub fn iter_masks(&self) -> (masks: Vec<u64>)
        ensures
            masks@ == self@,
    {
        proof {
            use_type_invariant(self);
        }
        let len = self.len();
        let mut out: Vec<u64> = Vec::new();
        let mut i: usize = 0;
        while i < len
            invariant
                self.wf(),
                len == self@.len(),
                i <= len,
                out@ == self@.subrange(0, i as int),
            decreases len - i,
        {
            out.push(self.masks[i]);
            i = i + 1;
            assert(out@ =~= self@.subrange(0, i as int));
        }
        out
    }
}

/// The components and mask slots after removing component `idx` from `len` components:
/// later components shift down one place and the freed slot is cleared;
/// an index past the count drops the last component instead.
pub open spec fn removed_component(slots: Seq<u64>, len: int, idx: int) -> (Seq<u64>, Seq<u64>) {
    if len == 0 {
        (Seq::empty(), slots)
    } else {
        let new_slots = Seq::new(
            slots.len(),
            |k: int|
                if k == len - 1 {
                    0u64
                } else if idx <= k < len - 1 {
                    slots[k + 1]
                } else {
                    slots[k]
                },
        );
        (new_slots.subrange(0, len - 1), new_slots)
    }
}

impl Default for RoadComponents {
    fn default() -> (comps: Self)
        ensures
            comps.wf(),
            comps@ == Seq::<u64>::empty(),
            comps.slots() == Seq::new(MAX_ROAD_COMPONENTS as nat, |i: int| 0u64),
    {
        Self::new()
    }
}

/// The nodes of one component, lowest first.
#[derive(Copy, Clone, Debug)]
pub struct ComponentNodeIter {
    remaining: u64,
}

impl ComponentNodeIter {
    pub closed spec fn remaining(&self) -> u64 {
        self.remaining
    }

    pub fn from_mask(mask: u64) -> (iter: Self)
        ensures
            iter.remaining() == mask,
    {
        Self { remaining: mask }
    }

    pub fn next(&mut self) -> (node: Option<NodeId>)
        ensures
            old(self).remaining() == 0 ==> node is None && final(self).remaining() == 0,
            old(self).remaining() != 0 ==> ({
                let m = old(self).remaining();
                &&& node matches Some(bit) && has_bit(m, bit as int) && forall|j: int|
                    0 <= j < bit ==> !#[trigger] has_bit(m, j)
                &&& final(self).remaining() == m & ((m - 1) as u64)
            }),
    {
        if self.remaining == 0 {
            return None;
        }
        let bit = lowest_set_bit(self.remaining);
        self.remaining = self.remaining & (self.remaining - 1);
        Some(bit as u8)
    }
}

#[derive(Copy, Clone, Debug, PartialEq, Eq)]
pub struct State {
    pub turn_player: PlayerId,
    pub active_player: PlayerId,
    pub turn_phase: TurnPhase,
    pub robber_tile: TileId,
    pub bank_resources: [u8; RESOURCE_COUNT],
    pub player_resources: [[u8; RESOURCE_COUNT]; PLAYER_COUNT],
    pub dev_cards_in_hand: [[u8; DEV_CARD_COUNT]; PLAYER_COUNT],
    pub dev_cards_played: [[u8; DEV_CARD_COUNT]; PLAYER_COUNT],
    pub dev_owned_at_start: [[bool; DEV_CARD_COUNT]; PLAYER_COUNT],
    pub has_rolled: [bool; PLAYER_COUNT],
    pub has_played_dev: [bool; PLAYER_COUNT],
    pub edge_owner: [PlayerId; EDGE_COUNT],
    pub node_owner: [PlayerId; NODE_COUNT],
    pub node_level: [BuildingLevel; NODE_COUNT],
    pub road_components: [RoadComponents; PLAYER_COUNT],
    pub dev_deck: DevDeck,
    pub current_prompt: ActionPrompt,
    pub is_initial_build_phase: bool,
    pub is_discarding: bool,
    pub is_moving_robber: bool,
    pub is_road_building: bool,
    pub free_roads_available: u8,
    pub is_resolving_trade: bool,
    pub current_trade: [u8; 10],
    pub trade_offering_player: PlayerId,
    pub acceptees: [bool; PLAYER_COUNT],
    pub trade_offered_this_turn: bool,
    pub num_turns: u32,
    pub last_initial_settlement: [NodeId; PLAYER_COUNT],
}

/// A player id names one of the players.
pub open spec fn is_player(p: PlayerId) -> bool {
    (p as int) < PLAYER_COUNT
}

/// An owner entry is either nobody or one of the players.
pub open spec fn is_owner(p: PlayerId) -> bool {
    p == NO_PLAYER || is_player(p)
}

impl State {
    /// Every id that the state holds names something that exists.
    pub open spec fn wf(&self) -> bool {
        &&& is_player(self.turn_player)
        &&& is_player(self.active_player)
        &&& is_player(self.trade_offering_player)
        &&& (self.robber_tile as int) < TILE_COUNT
        &&& forall|e: int| 0 <= e < EDGE_COUNT ==> is_owner(#[trigger] self.edge_owner@[e])
        &&& forall|n: int| 0 <= n < NODE_COUNT ==> is_owner(#[trigger] self.node_owner@[n])
        &&& forall|p: int| 0 <= p < PLAYER_COUNT ==> {
            let n = #[trigger] self.last_initial_settlement@[p];
            n == INVALID_NODE || (n as int) < NODE_COUNT
        }
    }

    pub open spec fn with_turn(self, player: PlayerId, phase: TurnPhase) -> State {
        State { turn_player: player, turn_phase: phase, ..self }
    }

    pub open spec fn with_robber(self, tile: TileId) -> State {
        State { robber_tile: tile, ..self }
    }

    pub open spec fn with_edge_owner(self, edge: int, owner: PlayerId) -> State {
        State { edge_owner: spec_array_update(self.edge_owner, edge, owner), ..self }
    }

    pub open spec fn with_building(self, node: int, owner: PlayerId, level: BuildingLevel) -> State {
        State {
            node_owner: spec_array_update(self.node_owner, node, owner),
            node_level: spec_array_update(self.node_level, node, level),
            ..self
        }
    }

    pub open spec fn with_player_resource(self, player: int, resource: int, count: u8) -> State {
        State {
            player_resources: spec_array_update(
                self.player_resources,
                player,
                spec_array_update(self.player_resources@[player], resource, count),
            ),
            ..self
        }
    }

    pub open spec fn with_bank_resource(self, resource: int, count: u8) -> State {
        State { bank_resources: spec_array_update(self.bank_resources, resource, count), ..self }
    }

    /// The count of `resource` in `player`'s hand.
    pub open spec fn hand(self, player: PlayerId, resource: Resource) -> u8 {
        self.player_resources@[player as int]@[resource_index(resource)]
    }

    /// The bank's count of `resource`.
    pub open spec fn bank(self, resource: Resource) -> u8 {
        self.bank_resources@[resource_index(resource)]
    }
}


impl State {
    pub fn new() -> (state: Self)
        ensures
            state.is_initial(ordered_deck(), DESERT_TILE),
            state.wf(),
    {
        Self::new_with_dev_deck(DevDeck::ordered(), DESERT_TILE)
    }

    pub fn new_with_rng(rng: &mut Pcg64) -> (state: Self)
        ensures
            ({
                let (deck, after) = shuffled(ordered_deck(), old(rng).spec_state(), old(rng).spec_increment());
                &&& state.is_initial(deck, DESERT_TILE)
                &&& final(rng).spec_state() == after
            }),
            final(rng).spec_increment() == old(rng).spec_increment(),
            state.wf(),
    {
        let dev_deck = DevDeck::shuffled(rng);
        Self::new_with_dev_deck(dev_deck, DESERT_TILE)
    }

    pub fn new_with_rng_and_board(rng: &mut Pcg64, board: &Board) -> (state: Self)
        ensures
            ({
                let (deck, after) = shuffled(ordered_deck(), old(rng).spec_state(), old(rng).spec_increment());
                &&& state.is_initial(deck, board.desert_tile)
                &&& final(rng).spec_state() == after
            }),
            final(rng).spec_increment() == old(rng).spec_increment(),
            (board.desert_tile as int) < TILE_COUNT ==> state.wf(),
    {
        let dev_deck = DevDeck::shuffled(rng);
        Self::new_with_dev_deck(dev_deck, board.desert_tile)
    }

    /// The start of a game: an empty board, full bank, empty hands, the robber on the desert,
    /// player 0 to place the first settlement.
    pub open spec fn is_initial(&self, deck: Seq<DevCard>, desert_tile: TileId) -> bool {
        &&& self.turn_player == 0
        &&& self.active_player == 0
        &&& self.turn_phase == TurnPhase::Setup
        &&& self.robber_tile == desert_tile
        &&& forall|r: int| 0 <= r < RESOURCE_COUNT ==> #[trigger] self.bank_resources@[r] == DEFAULT_BANK_RESOURCE
        &&& forall|p: int, r: int|
            0 <= p < PLAYER_COUNT && 0 <= r < RESOURCE_COUNT ==> #[trigger] self.player_resources@[p]@[r] == 0
        &&& forall|p: int, c: int|
            0 <= p < PLAYER_COUNT && 0 <= c < DEV_CARD_COUNT ==> {
                &&& #[trigger] self.dev_cards_in_hand@[p]@[c] == 0
                &&& self.dev_cards_played@[p]@[c] == 0
                &&& !self.dev_owned_at_start@[p]@[c]
            }
        &&& forall|p: int|
            0 <= p < PLAYER_COUNT ==> {
                &&& !#[trigger] self.has_rolled@[p]
                &&& !self.has_played_dev@[p]
                &&& !self.acceptees@[p]
                &&& self.road_components@[p]@ == Seq::<u64>::empty()
                &&& self.road_components@[p].canonical()
                &&& self.last_initial_settlement@[p] == INVALID_NODE
            }
        &&& forall|e: int| 0 <= e < EDGE_COUNT ==> #[trigger] self.edge_owner@[e] == NO_PLAYER
        &&& forall|n: int|
            0 <= n < NODE_COUNT ==> {
                &&& #[trigger] self.node_owner@[n] == NO_PLAYER
                &&& self.node_level@[n] == BuildingLevel::Empty
            }
        &&& self.dev_deck@ == deck
        &&& self.dev_deck.wf()
        &&& self.current_prompt == ActionPrompt::BuildInitialSettlement
        &&& self.is_initial_build_phase
        &&& !self.is_discarding
        &&& !self.is_moving_robber
        &&& !self.is_road_building
        &&& self.free_roads_available == 0
        &&& !self.is_resolving_trade
        &&& forall|i: int| 0 <= i < 10 ==> #[trigger] self.current_trade@[i] == 0
        &&& self.trade_offering_player == 0
        &&& !self.trade_offered_this_turn
        &&& self.num_turns == 0
    }

    fn new_with_dev_deck(dev_deck: DevDeck, desert_tile: TileId) -> (state: Self)
        ensures
            state.is_initial(dev_deck@, desert_tile),
            (desert_tile as int) < TILE_COUNT ==> state.wf(),
    {
        proof {
            use_type_invariant(&dev_deck);
        }
        let components = RoadComponents::new();
        let state = Self {
            turn_player: 0,
            active_player: 0,
            turn_phase: TurnPhase::Setup,
            robber_tile: desert_tile,
            bank_resources: [DEFAULT_BANK_RESOURCE; RESOURCE_COUNT],
            player_resources: [[0; RESOURCE_COUNT]; PLAYER_COUNT],
            dev_cards_in_hand: [[0; DEV_CARD_COUNT]; PLAYER_COUNT],
            dev_cards_played: [[0; DEV_CARD_COUNT]; PLAYER_COUNT],
            dev_owned_at_start: [[false; DEV_CARD_COUNT]; PLAYER_COUNT],
            has_rolled: [false; PLAYER_COUNT],
            has_played_dev: [false; PLAYER_COUNT],
            edge_owner: [NO_PLAYER; EDGE_COUNT],
            node_owner: [NO_PLAYER; NODE_COUNT],
            node_level: [BuildingLevel::Empty; NODE_COUNT],
            road_components: [components; PLAYER_COUNT],
            dev_deck,
            current_prompt: ActionPrompt::BuildInitialSettlement,
            is_initial_build_phase: true,
            is_discarding: false,
            is_moving_robber: false,
            is_road_building: false,
            free_roads_available: 0,
            is_resolving_trade: false,
            current_trade: [0; 10],
            trade_offering_player: 0,
            acceptees: [false; PLAYER_COUNT],
            trade_offered_this_turn: false,
            num_turns: 0,
            last_initial_settlement: [INVALID_NODE; PLAYER_COUNT],
        };
        proof {
            assert forall|p: int, r: int| 0 <= p < PLAYER_COUNT && 0 <= r < RESOURCE_COUNT implies #[trigger] state.player_resources@[p]@[r] == 0 by {
                assert(state.player_resources@[p]@[r] == 0);
            }
        }
        state
    }

    pub fn set_turn(&mut self, player: PlayerId, phase: TurnPhase, delta: &mut Delta)
        requires
            old(delta).wf(),
        ensures
            *final(self) == old(self).with_turn(player, phase),
            final(delta).wf(),
            final(delta).turn_record() == Some((old(self).turn_player, old(self).turn_phase)),
            final(delta).road_log() == old(delta).road_log(),
            final(delta).building_log() == old(delta).building_log(),
            final(delta).resource_log() == old(delta).resource_log(),
            final(delta).bank_log() == old(delta).bank_log(),
            final(delta).robber_record() == old(delta).robber_record(),
            old(delta).turn_record() is None ==> undone(*final(self), *final(delta)) == undone(*old(self), *old(delta)),
    {
        delta.record_turn(self.turn_player, self.turn_phase);
        self.turn_player = player;
        self.turn_phase = phase;
        proof {
            if old(delta).turn_record() is None {
                assert(undone(*self, *delta) =~= undone(*old(self), *old(delta)));
            }
        }
    }

    pub fn set_turn_kernel(&mut self, player: PlayerId, phase: TurnPhase)
        ensures
            *final(self) == old(self).with_turn(player, phase),
    {
        self.turn_player = player;
        self.turn_phase = phase;
    }

    pub fn move_robber(&mut self, tile: TileId, delta: &mut Delta)
        requires
            old(delta).wf(),
        ensures
            *final(self) == old(self).with_robber(tile),
            final(delta).wf(),
            final(delta).robber_record() == Some(old(self).robber_tile),
            final(delta).road_log() == old(delta).road_log(),
            final(delta).building_log() == old(delta).building_log(),
            final(delta).resource_log() == old(delta).resource_log(),
            final(delta).bank_log() == old(delta).bank_log(),
            final(delta).turn_record() == old(delta).turn_record(),
            old(delta).robber_record() is None ==> undone(*final(self), *final(delta)) == undone(*old(self), *old(delta)),
    {
        delta.record_robber(self.robber_tile);
        self.robber_tile = tile;
        proof {
            if old(delta).robber_record() is None {
                assert(undone(*self, *delta) =~= undone(*old(self), *old(delta)));
            }
        }
    }

    pub fn move_robber_kernel(&mut self, tile: TileId)
        ensures
            *final(self) == old(self).with_robber(tile),
    {
        self.robber_tile = tile;
    }

    pub fn set_road_owner(&mut self, edge: EdgeId, owner: PlayerId, delta: &mut Delta)
        requires
            (edge as int) < EDGE_COUNT,
            old(delta).wf(),
        ensures
            *final(self) == old(self).with_edge_owner(edge as int, owner),
            final(delta).wf(),
            final(delta).road_log() == if old(delta).road_log().len() < crate::delta::MAX_ROAD_DELTAS {
                old(delta).road_log().push((edge, old(self).edge_owner@[edge as int]))
            } else {
                old(delta).road_log()
            },
            final(delta).building_log() == old(delta).building_log(),
            final(delta).resource_log() == old(delta).resource_log(),
            final(delta).bank_log() == old(delta).bank_log(),
            final(delta).turn_record() == old(delta).turn_record(),
            final(delta).robber_record() == old(delta).robber_record(),
            records_in_range(*old(delta)) ==> records_in_range(*final(delta)),
            old(delta).road_log().len() < crate::delta::MAX_ROAD_DELTAS ==> undone(*final(self), *final(delta))
                == undone(*old(self), *old(delta)),
    {
        let idx = edge as usize;
        delta.record_road(edge, self.edge_owner[idx]);
        self.edge_owner[idx] = owner;
        proof {
            assert(*self =~= old(self).with_edge_owner(edge as int, owner));
            if old(delta).road_log().len() < crate::delta::MAX_ROAD_DELTAS {
                let prev = old(self).edge_owner@[edge as int];
                lemma_undo_roads_push(self.edge_owner, old(delta).road_log(), (edge, prev));
                assert(spec_array_update(self.edge_owner, edge as int, prev) =~= old(self).edge_owner);
                assert(undone(*self, *delta) =~= undone(*old(self), *old(delta)));
            }
        }
    }

    pub fn set_road_owner_kernel(&mut self, edge: EdgeId, owner: PlayerId)
        requires
            (edge as int) < EDGE_COUNT,
        ensures
            *final(self) == old(self).with_edge_owner(edge as int, owner),
    {
        self.edge_owner[edge as usize] = owner;
        assert(*self =~= old(self).with_edge_owner(edge as int, owner));
    }

    pub fn set_building(&mut self, node: NodeId, owner: PlayerId, level: BuildingLevel, delta: &mut Delta)
        requires
            (node as int) < NODE_COUNT,
            old(delta).wf(),
        ensures
            *final(self) == old(self).with_building(node as int, owner, level),
            final(delta).wf(),
            final(delta).building_log() == if old(delta).building_log().len() < crate::delta::MAX_BUILDING_DELTAS {
                old(delta).building_log().push(
                    (node, old(self).node_owner@[node as int], old(self).node_level@[node as int]),
                )
            } else {
                old(delta).building_log()
            },
            final(delta).road_log() == old(delta).road_log(),
            final(delta).resource_log() == old(delta).resource_log(),
            final(delta).bank_log() == old(delta).bank_log(),
            final(delta).turn_record() == old(delta).turn_record(),
            final(delta).robber_record() == old(delta).robber_record(),
            records_in_range(*old(delta)) ==> records_in_range(*final(delta)),
            old(delta).building_log().len() < crate::delta::MAX_BUILDING_DELTAS ==> undone(*final(self), *final(delta))
                == undone(*old(self), *old(delta)),
    {
        let idx = node as usize;
        delta.record_building(node, self.node_owner[idx], self.node_level[idx]);
        self.node_owner[idx] = owner;
        self.node_level[idx] = level;
        proof {
            assert(*self =~= old(self).with_building(node as int, owner, level));
            if old(delta).building_log().len() < crate::delta::MAX_BUILDING_DELTAS {
                let prev_owner = old(self).node_owner@[node as int];
                let prev_level = old(self).node_level@[node as int];
                lemma_undo_buildings_push(
                    self.node_owner,
                    self.node_level,
                    old(delta).building_log(),
                    (node, prev_owner, prev_level),
                );
                assert(spec_array_update(self.node_owner, node as int, prev_owner) =~= old(self).node_owner);
                assert(spec_array_update(self.node_level, node as int, prev_level) =~= old(self).node_level);
                assert(undone(*self, *delta) =~= undone(*old(self), *old(delta)));
            }
        }
    }

    pub fn set_building_kernel(&mut self, node: NodeId, owner: PlayerId, level: BuildingLevel)
        requires
            (node as int) < NODE_COUNT,
        ensures
            *final(self) == old(self).with_building(node as int, owner, level),
    {
        let idx = node as usize;
        self.node_owner[idx] = owner;
        self.node_level[idx] = level;
        assert(*self =~= old(self).with_building(node as int, owner, level));
    }

    pub fn adjust_resource(&mut self, player: PlayerId, resource: Resource, amount: i8, delta: &mut Delta)
        requires
            is_player(player),
            0 <= old(self).hand(player, resource) + amount <= 255,
            old(delta).wf(),
        ensures
            *final(self) == old(self).with_player_resource(
                player as int,
                resource_index(resource),
                (old(self).hand(player, resource) + amount) as u8,
            ),
            final(delta).wf(),
            final(delta).resource_log() == if old(delta).resource_log().len() < crate::delta::MAX_RESOURCE_DELTAS {
                old(delta).resource_log().push((player, resource, old(self).hand(player, resource)))
            } else {
                old(delta).resource_log()
            },
            final(delta).road_log() == old(delta).road_log(),
            final(delta).building_log() == old(delta).building_log(),
            final(delta).bank_log() == old(delta).bank_log(),
            final(delta).turn_record() == old(delta).turn_record(),
            final(delta).robber_record() == old(delta).robber_record(),
            records_in_range(*old(delta)) ==> records_in_range(*final(delta)),
            old(delta).resource_log().len() < crate::delta::MAX_RESOURCE_DELTAS ==> undone(*final(self), *final(delta))
                == undone(*old(self), *old(delta)),
    {
        let p_idx = player as usize;
        let r_idx = resource.as_index();
        let prev = self.player_resources[p_idx][r_idx];
        delta.record_resource(player, resource, prev);
        let updated = prev as i16 + amount as i16;
        self.player_resources[p_idx][r_idx] = updated as u8;
        proof {
            let v = (old(self).hand(player, resource) + amount) as u8;
            assert(self.player_resources@[p_idx as int] =~= spec_array_update(old(self).player_resources@[p_idx as int], r_idx as int, v));
            assert(self.player_resources =~= spec_array_update(
                old(self).player_resources,
                p_idx as int,
                spec_array_update(old(self).player_resources@[p_idx as int], r_idx as int, v),
            ));
            assert(*self =~= old(self).with_player_resource(p_idx as int, r_idx as int, v));
            if old(delta).resource_log().len() < crate::delta::MAX_RESOURCE_DELTAS {
                lemma_undo_hands_push(self.player_resources, old(delta).resource_log(), (player, resource, prev));
                assert(spec_array_update(self.player_resources@[p_idx as int], r_idx as int, prev) =~= old(self).player_resources@[p_idx as int]);
                assert(spec_array_update(
                    self.player_resources,
                    p_idx as int,
                    spec_array_update(self.player_resources@[p_idx as int], r_idx as int, prev),
                ) =~= old(self).player_resources);
                assert(undone(*self, *delta) =~= undone(*old(self), *old(delta)));
            }
        }
    }

    pub fn adjust_resource_kernel(&mut self, player: PlayerId, resource: Resource, amount: i8)
        requires
            is_player(player),
            0 <= old(self).hand(player, resource) + amount <= 255,
        ensures
            *final(self) == old(self).with_player_resource(
                player as int,
                resource_index(resource),
                (old(self).hand(player, resource) + amount) as u8,
            ),
            *final(self) == (State { player_resources: final(self).player_resources, ..*old(self) }),
            forall|q: int, k: int|
                0 <= q < PLAYER_COUNT && 0 <= k < RESOURCE_COUNT ==> #[trigger] final(self).player_resources@[q]@[k]
                    == old(self).player_resources@[q]@[k] + if q == player && k == resource_index(resource) {
                    amount as int
                } else {
                    0
                },
    {
        proof {
            lemma_with_player_resource(*old(self), player as int, resource_index(resource), (old(self).hand(player, resource) + amount) as u8);
        }
        let p_idx = player as usize;
        let r_idx = resource.as_index();
        let prev = self.player_resources[p_idx][r_idx];
        let updated = prev as i16 + amount as i16;
        self.player_resources[p_idx][r_idx] = updated as u8;
        proof {
            let v = (old(self).hand(player, resource) + amount) as u8;
            assert(self.player_resources@[p_idx as int] =~= spec_array_update(old(self).player_resources@[p_idx as int], r_idx as int, v));
            assert(self.player_resources =~= spec_array_update(
                old(self).player_resources,
                p_idx as int,
                spec_array_update(old(self).player_resources@[p_idx as int], r_idx as int, v),
            ));
            assert(*self =~= old(self).with_player_resource(p_idx as int, r_idx as int, v));
        }
    }

    pub fn adjust_bank(&mut self, resource: Resource, amount: i8, delta: &mut Delta)
        requires
            0 <= old(self).bank(resource) + amount <= 255,
            old(delta).wf(),
        ensures
            *final(self) == old(self).with_bank_resource(
                resource_index(resource),
                (old(self).bank(resource) + amount) as u8,
            ),
            final(delta).wf(),
            final(delta).bank_log() == if old(delta).bank_log().len() < crate::delta::MAX_BANK_DELTAS {
                old(delta).bank_log().push((resource, old(self).bank(resource)))
            } else {
                old(delta).bank_log()
            },
            final(delta).road_log() == old(delta).road_log(),
            final(delta).building_log() == old(delta).building_log(),
            final(delta).resource_log() == old(delta).resource_log(),
            final(delta).turn_record() == old(delta).turn_record(),
            final(delta).robber_record() == old(delta).robber_record(),
            records_in_range(*old(delta)) ==> records_in_range(*final(delta)),
            old(delta).bank_log().len() < crate::delta::MAX_BANK_DELTAS ==> undone(*final(self), *final(delta))
                == undone(*old(self), *old(delta)),
    {
        let r_idx = resource.as_index();
        let prev = self.bank_resources[r_idx];
        delta.record_bank(resource, prev);
        let updated = prev as i16 + amount as i16;
        self.bank_resources[r_idx] = updated as u8;
        proof {
            let v = (old(self).bank(resource) + amount) as u8;
            assert(*self =~= old(self).with_bank_resource(r_idx as int, v));
            if old(delta).bank_log().len() < crate::delta::MAX_BANK_DELTAS {
                lemma_undo_bank_push(self.bank_resources, old(delta).bank_log(), (resource, prev));
                assert(spec_array_update(self.bank_resources, r_idx as int, prev) =~= old(self).bank_resources);
                assert(undone(*self, *delta) =~= undone(*old(self), *old(delta)));
            }
        }
    }

    pub fn adjust_bank_kernel(&mut self, resource: Resource, amount: i8)
        requires
            0 <= old(self).bank(resource) + amount <= 255,
        ensures
            *final(self) == old(self).with_bank_resource(
                resource_index(resource),
                (old(self).bank(resource) + amount) as u8,
            ),
            *final(self) == (State { bank_resources: final(self).bank_resources, ..*old(self) }),
            forall|k: int|
                0 <= k < RESOURCE_COUNT ==> #[trigger] final(self).bank_resources@[k] == old(self).bank_resources@[k]
                    + if k == resource_index(resource) {
                    amount as int
                } else {
                    0
                },
    {
        proof {
            lemma_with_bank_resource(*old(self), resource_index(resource), (old(self).bank(resource) + amount) as u8);
        }
        let r_idx = resource.as_index();
        let prev = self.bank_resources[r_idx];
        let updated = prev as i16 + amount as i16;
        self.bank_resources[r_idx] = updated as u8;
        assert(*self =~= old(self).with_bank_resource(r_idx as int, updated as u8));
    }

    pub fn undo(&mut self, delta: &Delta)
        requires
            delta.wf(),
            records_in_range(*delta),
        ensures
            *final(self) == undone(*old(self), *delta),
    {
        let ghost orig = *old(self);
        let road_len = delta.road_len();
        let mut i = road_len;
        while i > 0
            invariant
                delta.wf(),
                records_in_range(*delta),
                road_len == delta.road_log().len(),
                i <= road_len,
                *self == (State { edge_owner: undo_roads(orig.edge_owner, delta.road_log().subrange(i as int, road_len as int)), ..orig }),
            decreases i,
        {
            let (edge, prev_owner) = delta.road_at(i - 1);
            self.edge_owner[edge as usize] = prev_owner;
            i = i - 1;
            proof {
                let log = delta.road_log().subrange(i as int, road_len as int);
                assert(log.drop_first() =~= delta.road_log().subrange(i + 1, road_len as int));
                assert(*self =~= State { edge_owner: undo_roads(orig.edge_owner, log), ..orig });
            }
        }
        assert(delta.road_log().subrange(0, road_len as int) =~= delta.road_log());
        let ghost after_roads = *self;

        let building_len = delta.building_len();
        let mut i = building_len;
        while i > 0
            invariant
                delta.wf(),
                records_in_range(*delta),
                building_len == delta.building_log().len(),
                i <= building_len,
                ({
                    let b = undo_buildings(orig.node_owner, orig.node_level, delta.building_log().subrange(i as int, building_len as int));
                    *self == (State { node_owner: b.0, node_level: b.1, ..after_roads })
                }),
            decreases i,
        {
            let (node, prev_owner, prev_level) = delta.building_at(i - 1);
            self.node_owner[node as usize] = prev_owner;
            self.node_level[node as usize] = prev_level;
            i = i - 1;
            proof {
                let log = delta.building_log().subrange(i as int, building_len as int);
                assert(log.drop_first() =~= delta.building_log().subrange(i + 1, building_len as int));
                let b = undo_buildings(orig.node_owner, orig.node_level, log);
                assert(*self =~= State { node_owner: b.0, node_level: b.1, ..after_roads });
            }
        }
        assert(delta.building_log().subrange(0, building_len as int) =~= delta.building_log());
        let ghost after_buildings = *self;

        let resource_len = delta.resource_len();
        let mut i = resource_len;
        while i > 0
            invariant
                delta.wf(),
                records_in_range(*delta),
                resource_len == delta.resource_log().len(),
                i <= resource_len,
                *self == (State {
                    player_resources: undo_hands(orig.player_resources, delta.resource_log().subrange(i as int, resource_len as int)),
                    ..after_buildings
                }),
            decreases i,
        {
            let (player, resource, prev) = delta.resource_at(i - 1);
            let p_idx = player as usize;
            let r_idx = resource.as_index();
            self.player_resources[p_idx][r_idx] = prev;
            i = i - 1;
            proof {
                let log = delta.resource_log().subrange(i as int, resource_len as int);
                assert(log.drop_first() =~= delta.resource_log().subrange(i + 1, resource_len as int));
                let rest = undo_hands(orig.player_resources, log.drop_first());
                assert(self.player_resources@[p_idx as int] =~= spec_array_update(rest@[p_idx as int], r_idx as int, prev));
                assert(self.player_resources =~= undo_hands(orig.player_resources, log));
                assert(*self =~= State { player_resources: undo_hands(orig.player_resources, log), ..after_buildings });
            }
        }
        assert(delta.resource_log().subrange(0, resource_len as int) =~= delta.resource_log());
        let ghost after_resources = *self;

        let bank_len = delta.bank_len();
        let mut i = bank_len;
        while i > 0
            invariant
                delta.wf(),
                bank_len == delta.bank_log().len(),
                i <= bank_len,
                *self == (State {
                    bank_resources: undo_bank(orig.bank_resources, delta.bank_log().subrange(i as int, bank_len as int)),
                    ..after_resources
                }),
            decreases i,
        {
            let (resource, prev) = delta.bank_at(i - 1);
            self.bank_resources[resource.as_index()] = prev;
            i = i - 1;
            proof {
                let log = delta.bank_log().subrange(i as int, bank_len as int);
                assert(log.drop_first() =~= delta.bank_log().subrange(i + 1, bank_len as int));
                assert(*self =~= State { bank_resources: undo_bank(orig.bank_resources, log), ..after_resources });
            }
        }
        assert(delta.bank_log().subrange(0, bank_len as int) =~= delta.bank_log());

        if let Some((player, phase)) = delta.turn() {
            self.turn_player = player;
            self.turn_phase = phase;
        }
        if let Some(tile) = delta.robber_tile() {
            self.robber_tile = tile;
        }
        assert(*self =~= undone(orig, *delta));
    }
}


/// Reading back a hand entry after replacing one.
pub proof fn lemma_with_player_resource(s: State, player: int, resource: int, count: u8)
    requires
        0 <= player < PLAYER_COUNT,
        0 <= resource < RESOURCE_COUNT,
    ensures
        forall|q: int, k: int|
            0 <= q < PLAYER_COUNT && 0 <= k < RESOURCE_COUNT ==> #[trigger] s.with_player_resource(player, resource, count).player_resources@[q]@[k]
                == if q == player && k == resource {
                count
            } else {
                s.player_resources@[q]@[k]
            },
        s.with_player_resource(player, resource, count) == (State {
            player_resources: s.with_player_resource(player, resource, count).player_resources,
            ..s
        }),
{
}

/// Reading back a bank entry after replacing one.
pub proof fn lemma_with_bank_resource(s: State, resource: int, count: u8)
    requires
        0 <= resource < RESOURCE_COUNT,
    ensures
        forall|k: int|
            0 <= k < RESOURCE_COUNT ==> #[trigger] s.with_bank_resource(resource, count).bank_resources@[k] == if k
                == resource {
                count
            } else {
                s.bank_resources@[k]
            },
        s.with_bank_resource(resource, count) == (State { bank_resources: s.with_bank_resource(resource, count).bank_resources, ..s }),
{
}

/// The edge owners after writing back the logged previous owners, the oldest entry written last.
pub open spec fn undo_roads(edges: [PlayerId; EDGE_COUNT], log: Seq<(EdgeId, PlayerId)>) -> [PlayerId; EDGE_COUNT]
    decreases log.len(),
{
    if log.len() == 0 {
        edges
    } else {
        spec_array_update(undo_roads(edges, log.drop_first()), log[0].0 as int, log[0].1)
    }
}

/// The node owners and levels after writing back the logged previous values, the oldest entry written last.
pub open spec fn undo_buildings(
    owners: [PlayerId; NODE_COUNT],
    levels: [BuildingLevel; NODE_COUNT],
    log: Seq<(NodeId, PlayerId, BuildingLevel)>,
) -> ([PlayerId; NODE_COUNT], [BuildingLevel; NODE_COUNT])
    decreases log.len(),
{
    if log.len() == 0 {
        (owners, levels)
    } else {
        let rest = undo_buildings(owners, levels, log.drop_first());
        (
            spec_array_update(rest.0, log[0].0 as int, log[0].1),
            spec_array_update(rest.1, log[0].0 as int, log[0].2),
        )
    }
}

/// The hands after writing back the logged previous counts, the oldest entry written last.
pub open spec fn undo_hands(
    hands: [[u8; RESOURCE_COUNT]; PLAYER_COUNT],
    log: Seq<(PlayerId, Resource, u8)>,
) -> [[u8; RESOURCE_COUNT]; PLAYER_COUNT]
    decreases log.len(),
{
    if log.len() == 0 {
        hands
    } else {
        let rest = undo_hands(hands, log.drop_first());
        let p = log[0].0 as int;
        spec_array_update(rest, p, spec_array_update(rest@[p], resource_index(log[0].1), log[0].2))
    }
}

/// The bank after writing back the logged previous counts, the oldest entry written last.
pub open spec fn undo_bank(bank: [u8; RESOURCE_COUNT], log: Seq<(Resource, u8)>) -> [u8; RESOURCE_COUNT]
    decreases log.len(),
{
    if log.len() == 0 {
        bank
    } else {
        spec_array_update(undo_bank(bank, log.drop_first()), resource_index(log[0].0), log[0].1)
    }
}

/// The state that undoing `delta` on `state` gives back.
pub open spec fn undone(state: State, delta: Delta) -> State {
    let buildings = undo_buildings(state.node_owner, state.node_level, delta.building_log());
    State {
        edge_owner: undo_roads(state.edge_owner, delta.road_log()),
        node_owner: buildings.0,
        node_level: buildings.1,
        player_resources: undo_hands(state.player_resources, delta.resource_log()),
        bank_resources: undo_bank(state.bank_resources, delta.bank_log()),
        turn_player: match delta.turn_record() {
            Some(t) => t.0,
            None => state.turn_player,
        },
        turn_phase: match delta.turn_record() {
            Some(t) => t.1,
            None => state.turn_phase,
        },
        robber_tile: match delta.robber_record() {
            Some(t) => t,
            None => state.robber_tile,
        },
        ..state
    }
}

/// Every logged edge, node and player exists.
pub open spec fn records_in_range(delta: Delta) -> bool {
    &&& forall|i: int| 0 <= i < delta.road_log().len() ==> (#[trigger] delta.road_log()[i]).0 < EDGE_COUNT
    &&& forall|i: int|
        0 <= i < delta.building_log().len() ==> (#[trigger] delta.building_log()[i]).0 < NODE_COUNT
    &&& forall|i: int|
        0 <= i < delta.resource_log().len() ==> (#[trigger] delta.resource_log()[i]).0 < PLAYER_COUNT
}

proof fn lemma_undo_roads_push(edges: [PlayerId; EDGE_COUNT], log: Seq<(EdgeId, PlayerId)>, r: (EdgeId, PlayerId))
    ensures
        undo_roads(edges, log.push(r)) == undo_roads(spec_array_update(edges, r.0 as int, r.1), log),
    decreases log.len(),
{
    if log.len() == 0 {
        assert(log.push(r).drop_first() =~= log);
        assert(log.push(r)[0] == r);
        assert(undo_roads(edges, log) == edges);
        assert(undo_roads(edges, log.push(r).drop_first()) == edges);
        assert(undo_roads(edges, log.push(r)) == spec_array_update(edges, r.0 as int, r.1));
    } else {
        assert(log.push(r).drop_first() =~= log.drop_first().push(r));
        assert(log.push(r)[0] == log[0]);
        lemma_undo_roads_push(edges, log.drop_first(), r);
        assert(undo_roads(edges, log.push(r)) == spec_array_update(
            undo_roads(edges, log.drop_first().push(r)),
            log[0].0 as int,
            log[0].1,
        ));
    }
}

proof fn lemma_undo_buildings_push(
    owners: [PlayerId; NODE_COUNT],
    levels: [BuildingLevel; NODE_COUNT],
    log: Seq<(NodeId, PlayerId, BuildingLevel)>,
    r: (NodeId, PlayerId, BuildingLevel),
)
    ensures
        undo_buildings(owners, levels, log.push(r)) == undo_buildings(
            spec_array_update(owners, r.0 as int, r.1),
            spec_array_update(levels, r.0 as int, r.2),
            log,
        ),
    decreases log.len(),
{
    if log.len() == 0 {
        assert(log.push(r).drop_first() =~= log);
        assert(log.push(r)[0] == r);
        assert(undo_buildings(owners, levels, log.push(r).drop_first()) == (owners, levels));
    } else {
        assert(log.push(r).drop_first() =~= log.drop_first().push(r));
        assert(log.push(r)[0] == log[0]);
        lemma_undo_buildings_push(owners, levels, log.drop_first(), r);
    }
}

proof fn lemma_undo_hands_push(
    hands: [[u8; RESOURCE_COUNT]; PLAYER_COUNT],
    log: Seq<(PlayerId, Resource, u8)>,
    r: (PlayerId, Resource, u8),
)
    ensures
        undo_hands(hands, log.push(r)) == undo_hands(
            spec_array_update(hands, r.0 as int, spec_array_update(hands@[r.0 as int], resource_index(r.1), r.2)),
            log,
        ),
    decreases log.len(),
{
    if log.len() == 0 {
        assert(log.push(r).drop_first() =~= log);
        assert(log.push(r)[0] == r);
        assert(undo_hands(hands, log.push(r).drop_first()) == hands);
    } else {
        assert(log.push(r).drop_first() =~= log.drop_first().push(r));
        assert(log.push(r)[0] == log[0]);
        lemma_undo_hands_push(hands, log.drop_first(), r);
    }
}

proof fn lemma_undo_bank_push(bank: [u8; RESOURCE_COUNT], log: Seq<(Resource, u8)>, r: (Resource, u8))
    ensures
        undo_bank(bank, log.push(r)) == undo_bank(spec_array_update(bank, resource_index(r.0), r.1), log),
    decreases log.len(),
{
    if log.len() == 0 {
        assert(log.push(r).drop_first() =~= log);
        assert(log.push(r)[0] == r);
        assert(undo_bank(bank, log.push(r).drop_first()) == bank);
    } else {
        assert(log.push(r).drop_first() =~= log.drop_first().push(r));
        assert(log.push(r)[0] == log[0]);
        lemma_undo_bank_push(bank, log.drop_first(), r);
    }
}

/// Undoing a delta that holds no record gives back the state unchanged.
pub proof fn lemma_undo_empty(state: State, delta: Delta)
    requires
        delta.is_empty(),
    ensures
        undone(state, delta) == state,
{
    assert(undone(state, delta) =~= state);
}


/// Undo restores: every recorded change keeps the state that undoing its delta gives while the delta has room,
/// so after a run of changes recorded into a delta that started empty, undoing the delta gives back the state
/// the run started from.
pub proof fn lemma_undo_restores(start: State, fresh: Delta, now: State, delta: Delta)
    requires
        fresh.is_empty(),
        undone(now, delta) == undone(start, fresh),
    ensures
        undone(now, delta) == start,
{
    lemma_undo_empty(start, fresh);
}

/// Undo over a run of changes: when each change of a run keeps the state that undoing its delta gives (as every
/// recording setter does while its log has room), undoing the last delta of a run whose delta started empty gives
/// back the state the run started from.
pub proof fn lemma_undo_run(states: Seq<State>, deltas: Seq<Delta>)
    requires
        states.len() == deltas.len(),
        states.len() > 0,
        deltas[0].is_empty(),
        forall|i: int| 0 <= i < states.len() - 1 ==> #[trigger] undone(states[i + 1], deltas[i + 1]) == undone(states[i], deltas[i]),
    ensures
        undone(states.last(), deltas.last()) == states[0],
    decreases states.len(),
{
    if states.len() == 1 {
        lemma_undo_empty(states[0], deltas[0]);
    } else {
        let n = states.len() - 1;
        let i = n - 1;
        assert(undone(states[i + 1], deltas[i + 1]) == undone(states[i], deltas[i]));
        let shorter = states.drop_last();
        let fewer = deltas.drop_last();
        assert forall|k: int| 0 <= k < shorter.len() - 1 implies #[trigger] undone(shorter[k + 1], fewer[k + 1]) == undone(
            shorter[k],
            fewer[k],
        ) by {
            assert(undone(states[k + 1], deltas[k + 1]) == undone(states[k], deltas[k]));
        }
        lemma_undo_run(shorter, fewer);
        assert(shorter.last() == states[n - 1]);
        assert(fewer.last() == deltas[n - 1]);
    }
}

/// Two starts of a game with the same full deck and desert are the same state.
pub proof fn lemma_initial_unique(a: State, b: State, deck: Seq<DevCard>, desert_tile: TileId)
    requires
        a.is_initial(deck, desert_tile),
        b.is_initial(deck, desert_tile),
        deck.len() == DEV_DECK_SIZE,
    ensures
        a == b,
{
    assert(a.bank_resources =~= b.bank_resources);
    assert forall|p: int| 0 <= p < PLAYER_COUNT implies {
        &&& a.player_resources@[p] == b.player_resources@[p]
        &&& a.dev_cards_in_hand@[p] == b.dev_cards_in_hand@[p]
        &&& a.dev_cards_played@[p] == b.dev_cards_played@[p]
        &&& a.dev_owned_at_start@[p] == b.dev_owned_at_start@[p]
        &&& a.road_components@[p] == b.road_components@[p]
    } by {
        assert forall|c: int| 0 <= c < DEV_CARD_COUNT implies a.dev_cards_played@[p]@[c] == b.dev_cards_played@[p]@[c]
            && a.dev_owned_at_start@[p]@[c] == b.dev_owned_at_start@[p]@[c] by {
            assert(a.dev_cards_in_hand@[p]@[c] == 0);
            assert(b.dev_cards_in_hand@[p]@[c] == 0);
        }
        assert forall|r: int| 0 <= r < RESOURCE_COUNT implies a.player_resources@[p]@[r] == b.player_resources@[p]@[r] by {
            assert(a.player_resources@[p]@[r] == 0);
            assert(b.player_resources@[p]@[r] == 0);
        }
        assert(a.player_resources@[p] =~= b.player_resources@[p]);
        assert(a.dev_cards_in_hand@[p] =~= b.dev_cards_in_hand@[p]);
        assert(a.dev_cards_played@[p] =~= b.dev_cards_played@[p]);
        assert(a.dev_owned_at_start@[p] =~= b.dev_owned_at_start@[p]);
        assert(!a.has_rolled@[p]);
        assert(!b.has_rolled@[p]);
        a.road_components@[p].lemma_canonical_same(&b.road_components@[p]);
    }
    assert forall|p: int| 0 <= p < PLAYER_COUNT implies a.has_played_dev@[p] == b.has_played_dev@[p] && a.acceptees@[p]
        == b.acceptees@[p] && a.last_initial_settlement@[p] == b.last_initial_settlement@[p] by {
        assert(!a.has_rolled@[p]);
        assert(!b.has_rolled@[p]);
    }
    assert(a.player_resources =~= b.player_resources);
    assert(a.dev_cards_in_hand =~= b.dev_cards_in_hand);
    assert(a.dev_cards_played =~= b.dev_cards_played);
    assert(a.dev_owned_at_start =~= b.dev_owned_at_start);
    assert(a.road_components =~= b.road_components);
    assert(a.has_rolled =~= b.has_rolled);
    assert(a.has_played_dev =~= b.has_played_dev);
    assert(a.acceptees =~= b.acceptees);
    assert(a.last_initial_settlement =~= b.last_initial_settlement);
    assert(a.edge_owner =~= b.edge_owner);
    assert(a.node_owner =~= b.node_owner);
    assert forall|n: int| 0 <= n < NODE_COUNT implies a.node_level@[n] == b.node_level@[n] by {
        assert(a.node_owner@[n] == NO_PLAYER);
        assert(b.node_owner@[n] == NO_PLAYER);
    }
    assert(a.node_level =~= b.node_level);
    assert(a.current_trade =~= b.current_trade);
    a.dev_deck.lemma_full_same(&b.dev_deck);
}

} // verus!
