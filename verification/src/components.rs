//! The facts that can be attached to an identity: placement flags, ownership,
//! the derived positioning behaviour, animation markers and the roles of tables,
//! sessions and players.
use crate::ids::{Entity, IdSet};
use vstd::prelude::*;

verus! {

/// Placement flag: the card is held in a hand, at this position counted from the left.
#[derive(Debug, Eq, PartialEq, Clone, Copy, Default, Structural)]
pub struct InHand {
    pub index_from_left: usize,
}

/// Placement flag: the card lies face up on the table.
#[derive(Debug, Eq, PartialEq, Clone, Copy, Default, Structural)]
pub struct Played;

/// Placement flag: the card is in the deck, at this height counted from the bottom.
#[derive(Debug, Eq, PartialEq, Clone, Copy, Default, Structural)]
pub struct InDeck {
    pub index_from_bottom: usize,
}

/// Marks the card that was revealed on the deck to fix the trump suit.
#[derive(Debug, Eq, PartialEq, Clone, Copy, Default, Structural)]
pub struct Trump;

/// Placement flag: the card lies in a trick that a player has taken.
#[derive(Debug, Eq, PartialEq, Clone, Copy, Default, Structural)]
pub struct InTakenTrick;

/// The player who owns a card.
#[derive(Debug, Eq, PartialEq, Clone, Copy, Structural)]
pub struct BelongsToPlayer(pub Entity);

/// How a card's pose is computed. A card has at most one behaviour, so that no
/// two pose rules ever move the same card.
#[derive(Debug, Eq, PartialEq, Clone, Copy, Structural)]
pub enum CardPositioningBehaviour {
    InDeck,
    RevealedOnDeck,
    InHand,
    Played,
    InTakenTrick,
}

/// Marks an entity that is moving towards its target pose. Times are counted in
/// microseconds from an origin that the caller chooses.
#[derive(Debug, Eq, PartialEq, Clone, Copy, Structural)]
pub struct TravelTime {
    pub start_time: u64,
}

/// Marks an entity that has reached its target pose and is left alone until its
/// placement changes.
#[derive(Debug, Eq, PartialEq, Clone, Copy, Structural)]
pub struct Sleeping {
    pub start_time: u64,
}

/// Marks a play surface.
#[derive(Debug, Eq, PartialEq, Clone, Copy, Structural)]
pub struct Table;

/// Marks a table whose session has not chosen its dealer yet.
#[derive(Debug, Eq, PartialEq, Clone, Copy, Structural)]
pub struct NeedsDealer;

/// One game at one table: the table, the players seated at it and the cards in play.
pub struct Session {
    pub table_id: Entity,
    pub player_ids: IdSet,
    pub card_ids: IdSet,
}

impl Session {
    /// The players of the session, each once, in no particular order.
    pub fn players(&self) -> (ids: Vec<Entity>)
        ensures
            ids@.no_duplicates(),
            ids@.to_set() == self.player_ids@,
    {
        self.player_ids.to_vec()
    }

    /// The cards of the session, each once, in no particular order.
    pub fn cards(&self) -> (ids: Vec<Entity>)
        ensures
            ids@.no_duplicates(),
            ids@.to_set() == self.card_ids@,
    {
        self.card_ids.to_vec()
    }

    /// The number of players of the session.
    pub fn player_count(&self) -> (count: usize)
        ensures
            count == self.player_ids@.len(),
    {
        self.player_ids.len()
    }

    /// The number of cards of the session.
    pub fn card_count(&self) -> (count: usize)
        ensures
            count == self.card_ids@.len(),
    {
        self.card_ids.len()
    }
}

/// The session that a table or a player belongs to.
#[derive(Debug, Eq, PartialEq, Clone, Copy, Structural)]
pub struct SessionRef(pub Entity);

/// Marks a seat at a table.
#[derive(Debug, Eq, PartialEq, Clone, Copy, Default, Structural)]
pub struct Player;

/// Marks the player who deals.
#[derive(Debug, Eq, PartialEq, Clone, Copy, Default, Structural)]
pub struct Dealer;

/// A request to deal one card to each listed player, in list order. A player may
/// be listed more than once.
#[derive(Debug, Eq, PartialEq, Clone)]
pub struct DealCardsEvent {
    pub session_id: Entity,
    pub player_ids: Vec<Entity>,
}

/// A request for a new table with this many seats.
#[derive(Debug, Clone, Copy)]
pub struct SpawnTableEvent {
    pub num_players: usize,
}

/// A request for a fresh deck of cards in a session.
#[derive(Debug, Clone, Copy)]
pub struct SpawnDeckEvent {
    pub session_id: Entity,
}

} // verus!
