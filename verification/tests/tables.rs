use poche::cards::Card;
use poche::components::{
    InDeck, NeedsDealer, Player, SessionRef, SpawnDeckEvent, SpawnTableEvent, Table,
};
use poche::spawn::{
    handle_spawn_deck_events, handle_spawn_table_events, spawn_deck, spawn_table, DeckSpawn,
};
use poche::world::{EntityData, World, MAX_ENTITIES};

#[test]
fn a_new_world_is_empty() {
    let world = World::new();
    assert_eq!(world.len(), 0);
    assert_eq!(MAX_ENTITIES, 2_147_483_647);
}

#[test]
fn spawn_gives_the_next_identity_and_a_blank_entity() {
    let mut world = World::new();
    assert_eq!(world.spawn(), 0);
    assert_eq!(world.spawn(), 1);
    assert_eq!(world.len(), 2);
    let data: &EntityData = &world.entities[1];
    assert!(data.card.is_none());
    assert!(data.in_deck.is_none());
    assert!(data.in_hand.is_none());
    assert!(data.played.is_none());
    assert!(data.trump.is_none());
    assert!(data.in_taken_trick.is_none());
    assert!(data.belongs_to_player.is_none());
    assert!(data.behaviour.is_none());
    assert!(data.travel_time.is_none());
    assert!(data.sleeping.is_none());
    assert!(data.table.is_none());
    assert!(data.needs_dealer.is_none());
    assert!(data.session.is_none());
    assert!(data.session_ref.is_none());
    assert!(data.player.is_none());
    assert!(data.dealer.is_none());
}

#[test]
fn a_table_comes_with_players_and_a_session() {
    let mut world = World::new();
    let spawned = spawn_table(&mut world, 4);
    assert_eq!(world.len(), 6);
    assert_eq!(spawned.player_ids, vec![0, 1, 2, 3]);
    assert_eq!(spawned.table_id, 4);
    assert_eq!(spawned.session_id, 5);
    assert_eq!(spawned.deck_request.session_id, 5);
    for seat in 0..4 {
        let player = &world.entities[seat];
        assert_eq!(player.player, Some(Player));
        assert_eq!(player.session_ref, Some(SessionRef(5)));
        assert!(player.table.is_none());
        assert!(player.dealer.is_none());
    }
    let table = &world.entities[4];
    assert_eq!(table.table, Some(Table));
    assert_eq!(table.needs_dealer, Some(NeedsDealer));
    assert_eq!(table.session_ref, Some(SessionRef(5)));
    let session = world.entities[5].session.as_ref().unwrap();
    assert_eq!(session.table_id, 4);
    assert_eq!(session.player_count(), 4);
    for seat in 0..4 {
        assert!(session.players().contains(&seat));
    }
    assert!(!session.players().contains(&4));
    assert_eq!(session.card_count(), 0);
    let mut players = session.players();
    players.sort();
    assert_eq!(players, vec![0, 1, 2, 3]);
}

#[test]
fn a_second_table_follows_the_first() {
    let mut world = World::new();
    let events = vec![SpawnTableEvent { num_players: 5 }, SpawnTableEvent { num_players: 3 }];
    let spawned = handle_spawn_table_events(&mut world, &events);
    assert_eq!(spawned.len(), 2);
    assert_eq!(world.len(), 12);
    assert_eq!(spawned[0].player_ids, vec![0, 1, 2, 3, 4]);
    assert_eq!(spawned[0].table_id, 5);
    assert_eq!(spawned[0].session_id, 6);
    assert_eq!(spawned[1].player_ids, vec![7, 8, 9]);
    assert_eq!(spawned[1].table_id, 10);
    assert_eq!(spawned[1].session_id, 11);
    let first = world.entities[6].session.as_ref().unwrap();
    let second = world.entities[11].session.as_ref().unwrap();
    assert_eq!(first.player_count(), 5);
    assert_eq!(second.player_count(), 3);
    assert!(second.players().contains(&8));
    assert!(!first.players().contains(&8));
    assert_eq!(world.entities[8].session_ref, Some(SessionRef(11)));
}

#[test]
fn a_table_without_players_still_has_a_session() {
    let mut world = World::new();
    let spawned = spawn_table(&mut world, 0);
    assert_eq!(spawned.player_ids, Vec::<usize>::new());
    assert_eq!(spawned.table_id, 0);
    assert_eq!(spawned.session_id, 1);
    assert_eq!(world.entities[1].session.as_ref().unwrap().player_count(), 0);
}

#[test]
fn a_deck_is_stacked_in_the_order_of_a_new_deck() {
    let mut world = World::new();
    let spawned = spawn_table(&mut world, 2);
    let outcome = spawn_deck(&mut world, spawned.session_id);
    assert_eq!(outcome, DeckSpawn::Spawned { first_card: 4 });
    assert_eq!(world.len(), 56);
    let deck = Card::get_new_deck();
    for index in 0..52 {
        let card = &world.entities[4 + index];
        assert_eq!(card.card, Some(deck[index]));
        assert_eq!(card.in_deck, Some(InDeck { index_from_bottom: index }));
        assert!(card.in_hand.is_none());
        assert!(card.belongs_to_player.is_none());
        assert!(card.behaviour.is_none());
        assert!(card.sleeping.is_none());
    }
    let session = world.entities[spawned.session_id].session.as_ref().unwrap();
    assert_eq!(session.card_count(), 52);
    assert!(session.cards().contains(&4));
    assert!(session.cards().contains(&55));
    assert!(!session.cards().contains(&3));
    assert_eq!(session.table_id, spawned.table_id);
    assert_eq!(session.player_count(), 2);
}

#[test]
fn a_deck_for_a_missing_session_is_not_made() {
    let mut world = World::new();
    let spawned = spawn_table(&mut world, 2);
    assert_eq!(spawn_deck(&mut world, 99), DeckSpawn::SessionNotFound);
    assert_eq!(spawn_deck(&mut world, spawned.table_id), DeckSpawn::SessionNotFound);
    assert_eq!(world.len(), 4);
}

#[test]
fn a_deck_for_a_session_without_table_is_not_made() {
    let mut world = World::new();
    let spawned = spawn_table(&mut world, 2);
    world.entities[spawned.table_id].table = None;
    assert_eq!(spawn_deck(&mut world, spawned.session_id), DeckSpawn::TableNotFound);
    assert_eq!(world.len(), 4);
    assert_eq!(
        world.entities[spawned.session_id].session.as_ref().unwrap().card_count(),
        0
    );
}

#[test]
fn deck_requests_are_served_in_order() {
    let mut world = World::new();
    let tables = handle_spawn_table_events(
        &mut world,
        &vec![SpawnTableEvent { num_players: 2 }, SpawnTableEvent { num_players: 3 }],
    );
    let requests: Vec<SpawnDeckEvent> = vec![
        tables[1].deck_request,
        SpawnDeckEvent { session_id: 1000 },
        tables[0].deck_request,
    ];
    let outcomes = handle_spawn_deck_events(&mut world, &requests);
    assert_eq!(
        outcomes,
        vec![
            DeckSpawn::Spawned { first_card: 9 },
            DeckSpawn::SessionNotFound,
            DeckSpawn::Spawned { first_card: 61 },
        ]
    );
    assert_eq!(world.len(), 113);
    let first = world.entities[tables[0].session_id].session.as_ref().unwrap();
    let second = world.entities[tables[1].session_id].session.as_ref().unwrap();
    assert!(second.cards().contains(&9));
    assert!(second.cards().contains(&60));
    assert!(!second.cards().contains(&61));
    assert!(first.cards().contains(&61));
    assert!(first.cards().contains(&112));
    assert!(!first.cards().contains(&60));
}
