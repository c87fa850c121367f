use poche::classify::determine_card_positioning_behaviours;
use poche::components::{DealCardsEvent, Sleeping, TravelTime};
use poche::dealing::deal_cards;
use poche::positioning::{
    handle_cards_positioning_cards_in_deck, handle_cards_positioning_cards_in_hand, position_deck,
    position_hand, PoseTarget, PoseUpdate, FAN_STEP, HAND_REACH, STACK_STEP,
};
use poche::select::{sorted_pile, Pile};
use poche::components::InDeck;
use poche::spawn::{spawn_deck, spawn_table, TableSpawn};
use poche::world::World;

fn classified_table(world: &mut World, players: usize) -> TableSpawn {
    let spawned = spawn_table(world, players);
    spawn_deck(world, spawned.session_id);
    determine_card_positioning_behaviours(world);
    spawned
}

#[test]
fn a_pile_is_sorted_by_its_index() {
    let mut world = World::new();
    let table = classified_table(&mut world, 2);
    let first_card = table.session_id + 1;
    for index in 0..52 {
        world.entities[first_card + index].in_deck =
            Some(InDeck { index_from_bottom: (index * 5 + 11) % 52 });
    }
    let session = world.entities[table.session_id].session.as_ref().unwrap();
    let order = sorted_pile(&world, &session.card_ids, Pile::Undealt);
    assert_eq!(order.len(), 52);
    for (place, item) in order.iter().enumerate() {
        assert_eq!(item.1, place);
        assert_eq!(world.entities[item.0].in_deck, Some(InDeck { index_from_bottom: place }));
    }
    let stack = sorted_pile(&world, &session.card_ids, Pile::Stack);
    assert_eq!(stack, order);
    let fan = sorted_pile(&world, &session.card_ids, Pile::Fan { player_id: 0 });
    assert_eq!(fan, vec![]);
}

#[test]
fn the_deck_is_stacked_on_its_bottom_card() {
    let mut world = World::new();
    let table = classified_table(&mut world, 2);
    let first_card = table.session_id + 1;
    let report = position_deck(&mut world, table.session_id, 1_000).unwrap();
    assert_eq!(report.session_id, table.session_id);
    assert_eq!(report.pile, Pile::Stack);
    assert_eq!(report.anchor, Some(first_card));
    assert_eq!(report.anchor_target, Some(PoseTarget::TableSurface { table_id: table.table_id }));
    assert_eq!(report.updates.len(), 52);
    assert_eq!(
        report.updates[0],
        PoseUpdate {
            card_id: first_card,
            target: PoseTarget::TableSurface { table_id: table.table_id },
            progress: 0,
        }
    );
    for index in 1..52 {
        assert_eq!(
            report.updates[index],
            PoseUpdate {
                card_id: first_card + index,
                target: PoseTarget::StackedOn { anchor_id: first_card, steps: index },
                progress: 0,
            }
        );
    }
    for index in 0..52 {
        let card = &world.entities[first_card + index];
        assert_eq!(card.travel_time, Some(TravelTime { start_time: 1_000 }));
        assert!(card.sleeping.is_none());
    }
}

#[test]
fn a_travel_eases_and_comes_to_rest() {
    let mut world = World::new();
    let table = classified_table(&mut world, 2);
    let first_card = table.session_id + 1;
    position_deck(&mut world, table.session_id, 1_000);
    let report = position_deck(&mut world, table.session_id, 251_000).unwrap();
    assert_eq!(report.updates.len(), 52);
    assert!(report.updates.iter().all(|update| update.progress == 500_000));
    assert_eq!(world.entities[first_card].travel_time, Some(TravelTime { start_time: 1_000 }));
    let report = position_deck(&mut world, table.session_id, 981_099).unwrap();
    assert!(report.updates.iter().all(|update| update.progress == 989_999));
    assert!(world.entities[first_card + 7].sleeping.is_none());
    let report = position_deck(&mut world, table.session_id, 981_100).unwrap();
    assert!(report.updates.iter().all(|update| update.progress == 990_000));
    for index in 0..52 {
        let card = &world.entities[first_card + index];
        assert!(card.travel_time.is_none());
        assert_eq!(card.sleeping, Some(Sleeping { start_time: 981_100 }));
    }
    let ghost_tick = position_deck(&mut world, table.session_id, 2_000_000).unwrap();
    assert_eq!(ghost_tick.anchor, Some(first_card));
    assert_eq!(ghost_tick.updates, vec![]);
    assert_eq!(
        world.entities[first_card].sleeping,
        Some(Sleeping { start_time: 981_100 })
    );
}

#[test]
fn resting_cards_and_other_behaviours_are_skipped() {
    let mut world = World::new();
    let table = classified_table(&mut world, 2);
    let first_card = table.session_id + 1;
    world.entities[first_card + 1].sleeping = Some(Sleeping { start_time: 3 });
    world.entities[first_card + 2].behaviour =
        Some(poche::components::CardPositioningBehaviour::Played);
    world.entities[first_card + 3].behaviour = None;
    let report = position_deck(&mut world, table.session_id, 10).unwrap();
    let moved: Vec<usize> = report.updates.iter().map(|update| update.card_id).collect();
    let mut expected: Vec<usize> = vec![first_card];
    expected.extend((4..52).map(|index| first_card + index));
    assert_eq!(moved, expected);
    assert_eq!(world.entities[first_card + 1].sleeping, Some(Sleeping { start_time: 3 }));
    assert!(world.entities[first_card + 1].travel_time.is_none());
    assert!(world.entities[first_card + 2].travel_time.is_none());
    assert!(world.entities[first_card + 3].travel_time.is_none());
}

#[test]
fn a_resting_bottom_card_still_anchors_the_deck() {
    let mut world = World::new();
    let table = classified_table(&mut world, 2);
    let first_card = table.session_id + 1;
    world.entities[first_card].sleeping = Some(Sleeping { start_time: 3 });
    let report = position_deck(&mut world, table.session_id, 10).unwrap();
    assert_eq!(report.anchor, Some(first_card));
    assert_eq!(report.updates.len(), 51);
    assert_eq!(
        report.updates[0].target,
        PoseTarget::StackedOn { anchor_id: first_card, steps: 1 }
    );
}

#[test]
fn without_a_table_only_the_bottom_card_stays() {
    let mut world = World::new();
    let table = classified_table(&mut world, 2);
    let first_card = table.session_id + 1;
    world.entities[table.table_id].table = None;
    let report = position_deck(&mut world, table.session_id, 10).unwrap();
    assert_eq!(report.anchor, Some(first_card));
    assert_eq!(report.anchor_target, None);
    assert_eq!(report.updates.len(), 51);
    assert_eq!(report.updates[0].card_id, first_card + 1);
    assert!(world.entities[first_card].travel_time.is_none());
}

#[test]
fn an_empty_deck_has_no_anchor() {
    let mut world = World::new();
    let table = spawn_table(&mut world, 2);
    let report = position_deck(&mut world, table.session_id, 10).unwrap();
    assert_eq!(report.anchor, None);
    assert_eq!(report.updates, vec![]);
    assert!(position_deck(&mut world, table.table_id, 10).is_none());
    assert!(position_deck(&mut world, 400, 10).is_none());
}

#[test]
fn a_hand_is_fanned_from_its_leftmost_card() {
    let mut world = World::new();
    let table = classified_table(&mut world, 2);
    let first_card = table.session_id + 1;
    let event = DealCardsEvent { session_id: table.session_id, player_ids: vec![1, 0, 1, 1] };
    deal_cards(&mut world, &event);
    determine_card_positioning_behaviours(&mut world);
    let report = position_hand(&mut world, table.session_id, 1, 50).unwrap();
    assert_eq!(report.pile, Pile::Fan { player_id: 1 });
    assert_eq!(report.anchor, Some(first_card + 51));
    assert_eq!(report.anchor_target, Some(PoseTarget::InFrontOf { player_id: 1 }));
    assert_eq!(
        report.updates,
        vec![
            PoseUpdate {
                card_id: first_card + 51,
                target: PoseTarget::InFrontOf { player_id: 1 },
                progress: 0,
            },
            PoseUpdate {
                card_id: first_card + 49,
                target: PoseTarget::FannedFrom { anchor_id: first_card + 51, steps: 1 },
                progress: 0,
            },
            PoseUpdate {
                card_id: first_card + 48,
                target: PoseTarget::FannedFrom { anchor_id: first_card + 51, steps: 2 },
                progress: 0,
            },
        ]
    );
    assert!(world.entities[first_card + 50].travel_time.is_none());
    let other = position_hand(&mut world, table.session_id, 0, 50).unwrap();
    assert_eq!(other.updates.len(), 1);
    assert_eq!(other.updates[0].card_id, first_card + 50);
    assert_eq!(other.updates[0].target, PoseTarget::InFrontOf { player_id: 0 });
}

#[test]
fn a_hand_without_player_is_passed_over() {
    let mut world = World::new();
    let table = classified_table(&mut world, 2);
    assert!(position_hand(&mut world, table.session_id, table.table_id, 5).is_none());
    assert!(position_hand(&mut world, table.session_id, 4_000, 5).is_none());
    assert!(position_hand(&mut world, table.table_id, 0, 5).is_none());
    let empty = position_hand(&mut world, table.session_id, 0, 5).unwrap();
    assert_eq!(empty.anchor, None);
    assert_eq!(empty.updates, vec![]);
}

#[test]
fn every_session_is_positioned_in_a_tick() {
    let mut world = World::new();
    let first = classified_table(&mut world, 2);
    let second = classified_table(&mut world, 3);
    determine_card_positioning_behaviours(&mut world);
    for table in [&first, &second] {
        let event =
            DealCardsEvent { session_id: table.session_id, player_ids: table.player_ids.clone() };
        deal_cards(&mut world, &event);
    }
    determine_card_positioning_behaviours(&mut world);
    let decks = handle_cards_positioning_cards_in_deck(&mut world, 100);
    assert_eq!(decks.len(), 2);
    assert_eq!(decks[0].session_id, first.session_id);
    assert_eq!(decks[0].updates.len(), 50);
    assert_eq!(decks[1].session_id, second.session_id);
    assert_eq!(decks[1].updates.len(), 49);
    let hands = handle_cards_positioning_cards_in_hand(&mut world, 100);
    assert_eq!(hands.len(), 5);
    let mut seen: Vec<(usize, usize)> = Vec::new();
    for report in &hands {
        let player_id = match report.pile {
            Pile::Fan { player_id } => player_id,
            _ => panic!("a hand was expected"),
        };
        seen.push((report.session_id, player_id));
        assert_eq!(report.updates.len(), 1);
        assert_eq!(report.updates[0].target, PoseTarget::InFrontOf { player_id });
        assert_eq!(report.anchor, Some(report.updates[0].card_id));
    }
    seen.sort();
    assert_eq!(
        seen,
        vec![
            (first.session_id, first.player_ids[0]),
            (first.session_id, first.player_ids[1]),
            (second.session_id, second.player_ids[0]),
            (second.session_id, second.player_ids[1]),
            (second.session_id, second.player_ids[2]),
        ]
    );
    let later = handle_cards_positioning_cards_in_deck(&mut world, 100 + 980_100);
    assert_eq!(later[0].updates.len(), 50);
    let rest = handle_cards_positioning_cards_in_deck(&mut world, 100 + 980_200);
    assert_eq!(rest[0].updates.len(), 0);
    assert_eq!(rest[1].updates.len(), 0);
}

#[test]
fn targets_lie_a_whole_number_of_steps_away() {
    assert_eq!(STACK_STEP, 10);
    assert_eq!(FAN_STEP, 100);
    assert_eq!(HAND_REACH, 500);
    assert_eq!(PoseTarget::TableSurface { table_id: 3 }.distance(), 0);
    assert_eq!(PoseTarget::StackedOn { anchor_id: 3, steps: 0 }.distance(), 0);
    assert_eq!(PoseTarget::StackedOn { anchor_id: 3, steps: 51 }.distance(), 510);
    assert_eq!(PoseTarget::InFrontOf { player_id: 1 }.distance(), 500);
    assert_eq!(PoseTarget::FannedFrom { anchor_id: 3, steps: 6 }.distance(), 600);
    assert_eq!(
        PoseTarget::FannedFrom { anchor_id: 3, steps: usize::MAX }.distance(),
        usize::MAX as u128 * 100
    );
}

#[test]
fn a_pile_knows_its_cards_by_their_flags() {
    let mut world = World::new();
    let table = classified_table(&mut world, 2);
    let first_card = table.session_id + 1;
    let event = DealCardsEvent { session_id: table.session_id, player_ids: vec![1] };
    deal_cards(&mut world, &event);
    let in_deck = &world.entities[first_card + 4];
    assert_eq!(Pile::Undealt.index_in(in_deck), Some(4));
    assert_eq!(Pile::Stack.index_in(in_deck), Some(4));
    assert_eq!(Pile::Fan { player_id: 1 }.index_in(in_deck), None);
    let in_hand = &world.entities[first_card + 51];
    assert_eq!(Pile::Undealt.index_in(in_hand), None);
    assert_eq!(Pile::Stack.index_in(in_hand), None);
    assert_eq!(Pile::Fan { player_id: 1 }.index_in(in_hand), Some(0));
    assert_eq!(Pile::Fan { player_id: 0 }.index_in(in_hand), None);
    let player = &world.entities[0];
    assert_eq!(Pile::Undealt.index_in(player), None);
    let mut bare = world.spawn();
    world.entities[bare].in_deck = Some(InDeck { index_from_bottom: 9 });
    assert_eq!(Pile::Undealt.index_in(&world.entities[bare]), None);
    bare = first_card + 7;
    world.entities[bare].behaviour = None;
    assert_eq!(Pile::Undealt.index_in(&world.entities[bare]), Some(7));
    assert_eq!(Pile::Stack.index_in(&world.entities[bare]), None);
}
