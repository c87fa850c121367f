use poche::classify::determine_card_positioning_behaviours;
use poche::components::{
    BelongsToPlayer, CardPositioningBehaviour, DealCardsEvent, InDeck, Played, Sleeping, Trump,
};
use poche::controls::{
    handle_deal_key_press, handle_shuffle_back_in_key_press, handle_sleeping_key_press,
    shuffle_back_in,
};
use poche::dealing::deal_cards;
use poche::positioning::handle_cards_positioning_cards_in_deck;
use poche::spawn::{spawn_deck, spawn_table, TableSpawn};
use poche::world::World;

fn table_in_play(world: &mut World, players: usize) -> TableSpawn {
    let spawned = spawn_table(world, players);
    spawn_deck(world, spawned.session_id);
    let event =
        DealCardsEvent { session_id: spawned.session_id, player_ids: spawned.player_ids.clone() };
    deal_cards(world, &event);
    deal_cards(world, &event);
    let first_card = spawned.session_id + 1;
    world.entities[first_card].in_deck = None;
    world.entities[first_card].played = Some(Played);
    world.entities[first_card].belongs_to_player = Some(BelongsToPlayer(spawned.player_ids[0]));
    world.entities[first_card + 1].trump = Some(Trump);
    determine_card_positioning_behaviours(world);
    spawned
}

#[test]
fn a_key_press_asks_for_a_deal_to_all_players() {
    let mut world = World::new();
    let first = spawn_table(&mut world, 3);
    let second = spawn_table(&mut world, 2);
    assert_eq!(handle_deal_key_press(&world, false), vec![]);
    let mut events = handle_deal_key_press(&world, true);
    assert_eq!(events.len(), 2);
    assert_eq!(events[0].session_id, first.session_id);
    assert_eq!(events[1].session_id, second.session_id);
    events[0].player_ids.sort();
    events[1].player_ids.sort();
    assert_eq!(events[0].player_ids, first.player_ids);
    assert_eq!(events[1].player_ids, second.player_ids);
}

#[test]
fn waking_clears_every_rest() {
    let mut world = World::new();
    let table = spawn_table(&mut world, 2);
    spawn_deck(&mut world, table.session_id);
    determine_card_positioning_behaviours(&mut world);
    handle_cards_positioning_cards_in_deck(&mut world, 0);
    handle_cards_positioning_cards_in_deck(&mut world, 1_000_000);
    world.entities[table.player_ids[0]].sleeping = Some(Sleeping { start_time: 9 });
    assert_eq!(handle_sleeping_key_press(&mut world, false), 0);
    assert!(world.entities[table.session_id + 1].sleeping.is_some());
    assert_eq!(handle_sleeping_key_press(&mut world, true), 53);
    for id in 0..world.len() {
        assert!(world.entities[id].sleeping.is_none());
    }
    assert_eq!(handle_sleeping_key_press(&mut world, true), 0);
    let report = handle_cards_positioning_cards_in_deck(&mut world, 1_000_001);
    assert_eq!(report[0].updates.len(), 52);
}

#[test]
fn all_cards_go_back_into_the_deck() {
    let mut world = World::new();
    let table = table_in_play(&mut world, 4);
    let first_card = table.session_id + 1;
    world.entities[first_card + 30].sleeping = Some(Sleeping { start_time: 1 });
    let order = shuffle_back_in(&mut world, table.session_id).unwrap();
    assert_eq!(order.len(), 52);
    let mut sorted = order.clone();
    sorted.sort();
    assert_eq!(sorted, (first_card..first_card + 52).collect::<Vec<usize>>());
    for (index, card) in order.iter().enumerate() {
        let data = &world.entities[*card];
        assert_eq!(data.in_deck, Some(InDeck { index_from_bottom: index }));
        assert!(data.in_hand.is_none());
        assert!(data.played.is_none());
        assert!(data.trump.is_none());
        assert!(data.in_taken_trick.is_none());
        assert!(data.belongs_to_player.is_none());
        assert!(data.sleeping.is_none());
        assert!(data.card.is_some());
    }
    let mut indices: Vec<usize> = (first_card..first_card + 52)
        .map(|card| world.entities[card].in_deck.unwrap().index_from_bottom)
        .collect();
    indices.sort();
    assert_eq!(indices, (0..52).collect::<Vec<usize>>());
    determine_card_positioning_behaviours(&mut world);
    for card in first_card..first_card + 52 {
        assert_eq!(world.entities[card].behaviour, Some(CardPositioningBehaviour::InDeck));
    }
    for player in &table.player_ids {
        assert!(world.entities[*player].player.is_some());
    }
}

#[test]
fn a_reset_deck_deals_from_its_new_top() {
    let mut world = World::new();
    let table = table_in_play(&mut world, 2);
    let order = shuffle_back_in(&mut world, table.session_id).unwrap();
    let event = DealCardsEvent { session_id: table.session_id, player_ids: vec![1, 0, 1] };
    let report = deal_cards(&mut world, &event);
    assert_eq!(report.dealt, vec![(1, order[51]), (0, order[50]), (1, order[49])]);
    assert_eq!(world.entities[order[49]].in_hand.unwrap().index_from_left, 1);
}

#[test]
fn a_key_press_resets_every_session() {
    let mut world = World::new();
    let first = table_in_play(&mut world, 2);
    let second = table_in_play(&mut world, 3);
    let idle = handle_shuffle_back_in_key_press(&mut world, false);
    assert_eq!(idle.len(), 0);
    assert!(world.entities[first.session_id + 52].in_hand.is_some());
    let reports = handle_shuffle_back_in_key_press(&mut world, true);
    assert_eq!(reports.len(), 2);
    assert_eq!(reports[0].session_id, first.session_id);
    assert_eq!(reports[1].session_id, second.session_id);
    for report in &reports {
        assert_eq!(report.order.len(), 52);
        for (index, card) in report.order.iter().enumerate() {
            assert_eq!(world.entities[*card].in_deck, Some(InDeck { index_from_bottom: index }));
            assert!(world.entities[*card].belongs_to_player.is_none());
        }
    }
    for id in 0..world.len() {
        assert!(world.entities[id].in_hand.is_none());
        assert!(world.entities[id].played.is_none());
        assert!(world.entities[id].trump.is_none());
    }
}

#[test]
fn a_reset_of_a_missing_session_does_nothing() {
    let mut world = World::new();
    let table = table_in_play(&mut world, 2);
    assert!(shuffle_back_in(&mut world, table.table_id).is_none());
    assert!(shuffle_back_in(&mut world, 7_000).is_none());
    assert!(world.entities[table.session_id + 52].in_hand.is_some());
}

#[test]
fn every_card_of_a_session_stays_in_play() {
    let mut world = World::new();
    let first = spawn_table(&mut world, 3);
    let second = spawn_table(&mut world, 2);
    spawn_deck(&mut world, first.session_id);
    spawn_deck(&mut world, second.session_id);
    let mut now = 0;
    for round in 0..6 {
        for table in [&first, &second] {
            let event = DealCardsEvent {
                session_id: table.session_id,
                player_ids: table.player_ids.clone(),
            };
            deal_cards(&mut world, &event);
        }
        determine_card_positioning_behaviours(&mut world);
        handle_cards_positioning_cards_in_deck(&mut world, now);
        now += 400_000;
        if round == 3 {
            handle_shuffle_back_in_key_press(&mut world, true);
            handle_sleeping_key_press(&mut world, true);
        }
        for table in [&first, &second] {
            let session = world.entities[table.session_id].session.as_ref().unwrap();
            assert_eq!(session.card_count(), 52);
            for card in session.cards() {
                let data = &world.entities[card];
                assert!(data.card.is_some());
                let placements = data.in_deck.is_some() as usize
                    + data.in_hand.is_some() as usize
                    + data.played.is_some() as usize
                    + data.in_taken_trick.is_some() as usize;
                assert_eq!(placements, 1);
                if data.in_hand.is_some() {
                    let owner = data.belongs_to_player.unwrap().0;
                    assert!(table.player_ids.contains(&owner));
                } else {
                    assert!(data.belongs_to_player.is_none());
                }
            }
        }
    }
}
