use poche::classify::determine_card_positioning_behaviours;
use poche::components::{BelongsToPlayer, DealCardsEvent, InDeck, InHand, Sleeping};
use poche::dealing::{deal_cards, handle_deal_cards_events};
use poche::spawn::{spawn_deck, spawn_table, TableSpawn};
use poche::world::World;

fn table_with_deck(world: &mut World, players: usize) -> TableSpawn {
    let spawned = spawn_table(world, players);
    spawn_deck(world, spawned.session_id);
    spawned
}

fn hand_of(world: &World, player: usize) -> Vec<(usize, usize)> {
    let mut hand: Vec<(usize, usize)> = Vec::new();
    for id in 0..world.len() {
        let data = &world.entities[id];
        if data.card.is_some() && data.belongs_to_player == Some(BelongsToPlayer(player)) {
            if let Some(in_hand) = data.in_hand {
                hand.push((in_hand.index_from_left, id));
            }
        }
    }
    hand.sort();
    hand
}

fn placements(world: &World, id: usize) -> usize {
    let data = &world.entities[id];
    data.in_deck.is_some() as usize
        + data.in_hand.is_some() as usize
        + data.played.is_some() as usize
        + data.in_taken_trick.is_some() as usize
}

#[test]
fn cards_are_dealt_from_the_top_in_list_order() {
    let mut world = World::new();
    let table = table_with_deck(&mut world, 4);
    let first_card = table.session_id + 1;
    let event = DealCardsEvent { session_id: table.session_id, player_ids: vec![2, 0, 3, 1] };
    let report = deal_cards(&mut world, &event);
    assert!(report.session_found);
    assert_eq!(report.session_id, table.session_id);
    assert_eq!(report.missing, 0);
    assert_eq!(
        report.dealt,
        vec![
            (2, first_card + 51),
            (0, first_card + 50),
            (3, first_card + 49),
            (1, first_card + 48),
        ]
    );
    for (player, card) in report.dealt {
        let data = &world.entities[card];
        assert!(data.in_deck.is_none());
        assert_eq!(data.in_hand, Some(InHand { index_from_left: 0 }));
        assert_eq!(data.belongs_to_player, Some(BelongsToPlayer(player)));
    }
}

#[test]
fn the_top_card_is_the_highest_index_less_the_cards_dealt() {
    let mut world = World::new();
    let table = table_with_deck(&mut world, 1);
    let first_card = table.session_id + 1;
    for already_dealt in 0..52 {
        let event = DealCardsEvent { session_id: table.session_id, player_ids: vec![0] };
        let report = deal_cards(&mut world, &event);
        assert_eq!(report.dealt, vec![(0, first_card + 51 - already_dealt)]);
        for rest in 0..(51 - already_dealt) {
            assert_eq!(
                world.entities[first_card + rest].in_deck,
                Some(InDeck { index_from_bottom: rest })
            );
        }
    }
    let event = DealCardsEvent { session_id: table.session_id, player_ids: vec![0] };
    let report = deal_cards(&mut world, &event);
    assert_eq!(report.dealt, vec![]);
    assert_eq!(report.missing, 1);
}

#[test]
fn the_deck_is_ordered_by_index_and_not_by_identity() {
    let mut world = World::new();
    let table = table_with_deck(&mut world, 3);
    let first_card = table.session_id + 1;
    for index in 0..52 {
        world.entities[first_card + index].in_deck =
            Some(InDeck { index_from_bottom: (index * 7 + 3) % 52 });
    }
    let event = DealCardsEvent { session_id: table.session_id, player_ids: vec![0, 1, 2, 0, 1] };
    let report = deal_cards(&mut world, &event);
    let dealt_cards: Vec<usize> = report.dealt.iter().map(|deal| deal.1).collect();
    let expected: Vec<usize> = [51usize, 50, 49, 48, 47]
        .iter()
        .map(|wanted| {
            first_card + (0..52).find(|index| (index * 7 + 3) % 52 == *wanted).unwrap()
        })
        .collect();
    assert_eq!(dealt_cards, expected);
}

#[test]
fn each_hand_grows_at_its_right_end() {
    let mut world = World::new();
    let table = table_with_deck(&mut world, 4);
    let players = vec![0, 1, 2, 3];
    for round in 0..5 {
        let sizes_before: Vec<usize> = players.iter().map(|p| hand_of(&world, *p).len()).collect();
        assert_eq!(sizes_before, vec![round; 4]);
        let event = DealCardsEvent { session_id: table.session_id, player_ids: players.clone() };
        let report = deal_cards(&mut world, &event);
        assert_eq!(report.dealt.len(), 4);
        for (player, card) in report.dealt {
            assert_eq!(
                world.entities[card].in_hand,
                Some(InHand { index_from_left: round })
            );
            let hand = hand_of(&world, player);
            assert_eq!(hand.len(), round + 1);
            let indices: Vec<usize> = hand.iter().map(|entry| entry.0).collect();
            assert_eq!(indices, (0..=round).collect::<Vec<usize>>());
        }
    }
}

#[test]
fn a_player_listed_twice_gets_two_cards_side_by_side() {
    let mut world = World::new();
    let table = table_with_deck(&mut world, 2);
    let first_card = table.session_id + 1;
    let event = DealCardsEvent { session_id: table.session_id, player_ids: vec![1, 1, 0, 1] };
    let report = deal_cards(&mut world, &event);
    assert_eq!(
        report.dealt,
        vec![
            (1, first_card + 51),
            (1, first_card + 50),
            (0, first_card + 49),
            (1, first_card + 48),
        ]
    );
    assert_eq!(
        hand_of(&world, 1),
        vec![(0, first_card + 51), (1, first_card + 50), (2, first_card + 48)]
    );
    assert_eq!(hand_of(&world, 0), vec![(0, first_card + 49)]);
}

#[test]
fn a_short_deck_serves_the_first_players_only() {
    let mut world = World::new();
    let table = table_with_deck(&mut world, 4);
    let first_card = table.session_id + 1;
    for index in 2..52 {
        world.entities[first_card + index].in_deck = None;
        world.entities[first_card + index].played = Some(poche::components::Played);
    }
    let event = DealCardsEvent { session_id: table.session_id, player_ids: vec![3, 2, 1, 0] };
    let report = deal_cards(&mut world, &event);
    assert!(report.session_found);
    assert_eq!(report.dealt, vec![(3, first_card + 1), (2, first_card)]);
    assert_eq!(report.missing, 2);
    assert_eq!(hand_of(&world, 1), vec![]);
    assert_eq!(hand_of(&world, 0), vec![]);
}

#[test]
fn a_deal_in_a_missing_session_deals_nothing() {
    let mut world = World::new();
    let table = table_with_deck(&mut world, 2);
    let event = DealCardsEvent { session_id: table.table_id, player_ids: vec![0, 1] };
    let report = deal_cards(&mut world, &event);
    assert!(!report.session_found);
    assert_eq!(report.dealt, vec![]);
    assert_eq!(report.missing, 2);
    let far = DealCardsEvent { session_id: 10_000, player_ids: vec![0] };
    let report = deal_cards(&mut world, &far);
    assert!(!report.session_found);
    assert_eq!(report.missing, 1);
    for id in 0..world.len() {
        assert!(world.entities[id].in_hand.is_none());
    }
}

#[test]
fn a_dealt_card_wakes_up() {
    let mut world = World::new();
    let table = table_with_deck(&mut world, 1);
    let top = table.session_id + 52;
    world.entities[top].sleeping = Some(Sleeping { start_time: 5 });
    world.entities[top - 1].sleeping = Some(Sleeping { start_time: 5 });
    let event = DealCardsEvent { session_id: table.session_id, player_ids: vec![0] };
    deal_cards(&mut world, &event);
    assert!(world.entities[top].sleeping.is_none());
    assert_eq!(world.entities[top - 1].sleeping, Some(Sleeping { start_time: 5 }));
}

#[test]
fn requests_are_served_one_after_the_other() {
    let mut world = World::new();
    let table = table_with_deck(&mut world, 3);
    let first_card = table.session_id + 1;
    let events = vec![
        DealCardsEvent { session_id: table.session_id, player_ids: vec![0, 1] },
        DealCardsEvent { session_id: 999, player_ids: vec![0] },
        DealCardsEvent { session_id: table.session_id, player_ids: vec![1, 2] },
    ];
    let reports = handle_deal_cards_events(&mut world, &events);
    assert_eq!(reports.len(), 3);
    assert_eq!(reports[0].dealt, vec![(0, first_card + 51), (1, first_card + 50)]);
    assert!(!reports[1].session_found);
    assert_eq!(reports[2].dealt, vec![(1, first_card + 49), (2, first_card + 48)]);
    assert_eq!(hand_of(&world, 1), vec![(0, first_card + 50), (1, first_card + 49)]);
}

#[test]
fn two_tables_do_not_share_cards() {
    let mut world = World::new();
    let first = table_with_deck(&mut world, 2);
    let second = table_with_deck(&mut world, 2);
    let event = DealCardsEvent { session_id: second.session_id, player_ids: second.player_ids.clone() };
    let report = deal_cards(&mut world, &event);
    let first_session = world.entities[first.session_id].session.as_ref().unwrap();
    let second_session = world.entities[second.session_id].session.as_ref().unwrap();
    for (_, card) in &report.dealt {
        assert!(second_session.cards().contains(card));
        assert!(!first_session.cards().contains(card));
    }
    for card in first_session.cards() {
        assert!(world.entities[card].in_deck.is_some());
    }
}

#[test]
fn every_card_has_one_placement_through_a_game() {
    let mut world = World::new();
    let table = table_with_deck(&mut world, 4);
    let steps = vec![vec![0, 1, 2, 3], vec![1, 1], vec![3, 0, 2], vec![2]];
    for players in steps {
        let event = DealCardsEvent { session_id: table.session_id, player_ids: players };
        deal_cards(&mut world, &event);
        determine_card_positioning_behaviours(&mut world);
        for id in 0..world.len() {
            if world.entities[id].card.is_some() {
                assert_eq!(placements(&world, id), 1);
            } else {
                assert_eq!(placements(&world, id), 0);
            }
        }
    }
}
