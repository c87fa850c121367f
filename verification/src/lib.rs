//! Card tables for a trick-taking game: sessions of players and cards, the
//! high-card draw that chooses the dealer, dealing from the top of the deck, and
//! the rules that decide how each card is posed.
//!
//! A tick runs the stages in this order, each on what the one before left:
//! `spawn::handle_spawn_table_events`, `spawn::handle_spawn_deck_events`,
//! `dealer::handle_tables_needing_dealer`, `dealing::handle_deal_cards_events`,
//! `classify::determine_card_positioning_behaviours`,
//! `positioning::handle_cards_positioning_cards_in_deck` and
//! `positioning::handle_cards_positioning_cards_in_hand`. The requests of
//! `controls` may come at any time between ticks.
//!
//! Every stage keeps two things true of a world in which they hold: no entity
//! has more than one placement flag, and every card that a session knows is in
//! play, with exactly one placement and with an owner while it is in a hand.
//!
//! Poses are not computed here. The pose rules name, for each card that moves,
//! the target, the distance in whole steps and the eased progress; turning them
//! into positions and rotations is left to the presentation.
pub mod cards;
pub mod classify;
pub mod components;
pub mod controls;
pub mod dealer;
pub mod dealing;
pub mod ids;
pub mod motion;
pub mod positioning;
pub mod select;
pub mod spawn;
pub mod world;
