//! The store of entities. An identity is a position in the store; what is known
//! of an entity is the set of facts attached to it. Relations between entities
//! are kept as identities, never as copies.
use crate::cards::Card;
use crate::components::{
    BelongsToPlayer, CardPositioningBehaviour, Dealer, InDeck, InHand, InTakenTrick, NeedsDealer,
    Played, Player, Session, SessionRef, Sleeping, Table, Trump, TravelTime,
};
use crate::ids::Entity;
use vstd::prelude::*;

verus! {

/// The most entities that a world may hold.
pub const MAX_ENTITIES: usize = 2147483647;

/// Everything that is attached to one entity. Each fact is present or absent on
/// its own.
pub struct EntityData {
    pub card: Option<Card>,
    pub in_deck: Option<InDeck>,
    pub in_hand: Option<InHand>,
    pub played: Option<Played>,
    pub trump: Option<Trump>,
    pub in_taken_trick: Option<InTakenTrick>,
    pub belongs_to_player: Option<BelongsToPlayer>,
    pub behaviour: Option<CardPositioningBehaviour>,
    pub travel_time: Option<TravelTime>,
    pub sleeping: Option<Sleeping>,
    pub table: Option<Table>,
    pub needs_dealer: Option<NeedsDealer>,
    pub session: Option<Session>,
    pub session_ref: Option<SessionRef>,
    pub player: Option<Player>,
    pub dealer: Option<Dealer>,
}

/// An entity to which nothing is attached.
pub open spec fn blank() -> EntityData {
    EntityData {
        card: None,
        in_deck: None,
        in_hand: None,
        played: None,
        trump: None,
        in_taken_trick: None,
        belongs_to_player: None,
        behaviour: None,
        travel_time: None,
        sleeping: None,
        table: None,
        needs_dealer: None,
        session: None,
        session_ref: None,
        player: None,
        dealer: None,
    }
}

impl EntityData {
    /// How many of the four placement flags are set.
    pub open spec fn placements(self) -> nat {
        (if self.in_deck is Some { 1nat } else { 0nat })
            + (if self.in_hand is Some { 1nat } else { 0nat })
            + (if self.played is Some { 1nat } else { 0nat })
            + (if self.in_taken_trick is Some { 1nat } else { 0nat })
    }

    /// Whether this is a card in the hand of `player`.
    pub open spec fn is_hand_card_of(self, player: Entity) -> bool {
        &&& self.card is Some
        &&& self.in_hand is Some
        &&& self.belongs_to_player == Some(BelongsToPlayer(player))
    }

    /// An entity to which nothing is attached.
    pub fn new() -> (data: EntityData)
        ensures
            data == blank(),
    {
        EntityData {
            card: None,
            in_deck: None,
            in_hand: None,
            played: None,
            trump: None,
            in_taken_trick: None,
            belongs_to_player: None,
            behaviour: None,
            travel_time: None,
            sleeping: None,
            table: None,
            needs_dealer: None,
            session: None,
            session_ref: None,
            player: None,
            dealer: None,
        }
    }
}

/// How many of the first `n` entities are cards in the hand of `player`.
pub open spec fn hand_count(entities: Seq<EntityData>, player: Entity, n: int) -> nat
    decreases n,
{
    if n <= 0 {
        0
    } else {
        hand_count(entities, player, n - 1) + (if n - 1 < entities.len() && entities[n
            - 1].is_hand_card_of(player) {
            1nat
        } else {
            0nat
        })
    }
}

/// Whether none of the entities has more than one placement flag.
pub open spec fn exclusive(entities: Seq<EntityData>) -> bool {
    forall|id: int| 0 <= id < entities.len() ==> (#[trigger] entities[id]).placements() <= 1
}

/// Whether `id` names a card that is in play: it has exactly one placement, and
/// if it is in a hand, a player owns it.
pub open spec fn in_play(entities: Seq<EntityData>, id: Entity) -> bool {
    &&& id < entities.len()
    &&& entities[id as int].card is Some
    &&& entities[id as int].placements() == 1
    &&& entities[id as int].in_hand is Some ==> entities[id as int].belongs_to_player is Some
}

/// Whether every card that a session knows is in play.
pub open spec fn sessions_hold_cards(entities: Seq<EntityData>) -> bool {
    forall|session_id: int, id: Entity|
        0 <= session_id < entities.len() && entities[session_id].session is Some
            && #[trigger] entities[session_id].session->0.card_ids@.contains(id) ==> in_play(
            entities,
            id,
        )
}

/// All entities of one simulation.
pub struct World {
    pub entities: Vec<EntityData>,
}

impl World {
    /// Whether the world is within the size that identities can address.
    pub open spec fn wf(&self) -> bool {
        self.entities@.len() <= MAX_ENTITIES
    }

    /// Whether no entity has more than one placement flag.
    pub open spec fn placements_exclusive(&self) -> bool {
        exclusive(self.entities@)
    }

    /// Whether every card that a session knows is in play.
    pub open spec fn cards_in_play(&self) -> bool {
        sessions_hold_cards(self.entities@)
    }

    /// Whether `id` names an entity of this world.
    pub open spec fn contains(&self, id: Entity) -> bool {
        id < self.entities@.len()
    }

    /// Whether `id` names a session.
    pub open spec fn is_session(&self, id: Entity) -> bool {
        self.contains(id) && self.entities@[id as int].session is Some
    }

    /// The session that `id` names.
    pub open spec fn session(&self, id: Entity) -> Session
        recommends
            self.is_session(id),
    {
        self.entities@[id as int].session->0
    }

    /// The number of cards in the hand of `player`.
    pub open spec fn hand_size(&self, player: Entity) -> nat {
        hand_count(self.entities@, player, self.entities@.len() as int)
    }

    /// A world without entities.
    pub fn new() -> (world: World)
        ensures
            world.entities@.len() == 0,
            world.wf(),
            world.placements_exclusive(),
            world.cards_in_play(),
    {
        World { entities: Vec::new() }
    }

    /// The number of entities.
    pub fn len(&self) -> (n: usize)
        ensures
            n == self.entities@.len(),
    {
        self.entities.len()
    }

    /// Adds an entity with nothing attached and returns its identity. The
    /// identities of the entities that were there do not change.
    pub fn spawn(&mut self) -> (id: Entity)
        requires
            old(self).entities@.len() < MAX_ENTITIES,
        ensures
            id == old(self).entities@.len(),
            final(self).entities@ == old(self).entities@.push(blank()),
            old(self).placements_exclusive() ==> final(self).placements_exclusive(),
            old(self).cards_in_play() ==> final(self).cards_in_play(),
    {
        let id = self.entities.len();
        self.entities.push(EntityData::new());
        id
    }
}

} // verus!
