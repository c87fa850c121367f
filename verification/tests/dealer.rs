use poche::cards::Rank;
use poche::components::{BelongsToPlayer, DealCardsEvent, Dealer, InHand, NeedsDealer};
use poche::dealer::{draw_for_dealer, handle_tables_needing_dealer, DealerDraw};
use poche::dealing::{deal_cards, handle_deal_cards_events};
use poche::spawn::{spawn_deck, spawn_table, TableSpawn};
use poche::world::World;

fn seated(world: &mut World, players: usize) -> TableSpawn {
    let spawned = spawn_table(world, players);
    spawn_deck(world, spawned.session_id);
    spawned
}

fn give(world: &mut World, table: &TableSpawn, player: usize, rank: Rank) {
    let mut hand_size = 0;
    let mut chosen = None;
    for id in 0..world.len() {
        let data = &world.entities[id];
        if data.in_hand.is_some() && data.belongs_to_player == Some(BelongsToPlayer(player)) {
            hand_size += 1;
        }
        if let Some(card) = data.card {
            if chosen.is_none() && id > table.session_id && card.rank == rank && data.in_deck.is_some() {
                chosen = Some(id);
            }
        }
    }
    let id = chosen.unwrap();
    world.entities[id].in_deck = None;
    world.entities[id].in_hand = Some(InHand { index_from_left: hand_size });
    world.entities[id].belongs_to_player = Some(BelongsToPlayer(player));
}

fn sorted(mut ids: Vec<usize>) -> Vec<usize> {
    ids.sort();
    ids
}

#[test]
fn the_first_round_deals_to_every_player() {
    let mut world = World::new();
    let table = seated(&mut world, 4);
    match draw_for_dealer(&mut world, table.session_id) {
        DealerDraw::Deal { request } => {
            assert_eq!(request.session_id, table.session_id);
            assert_eq!(sorted(request.player_ids), vec![0, 1, 2, 3]);
        }
        _ => panic!("a deal to all players was expected"),
    }
    assert_eq!(world.entities[table.table_id].needs_dealer, Some(NeedsDealer));
}

#[test]
fn a_sole_highest_card_makes_the_dealer() {
    let mut world = World::new();
    let table = seated(&mut world, 4);
    give(&mut world, &table, 0, Rank::Ace);
    give(&mut world, &table, 1, Rank::King);
    give(&mut world, &table, 2, Rank::King);
    give(&mut world, &table, 3, Rank::Two);
    match draw_for_dealer(&mut world, table.session_id) {
        DealerDraw::Selected { dealer, table_id } => {
            assert_eq!(dealer, 0);
            assert_eq!(table_id, table.table_id);
        }
        _ => panic!("a dealer was expected"),
    }
    assert_eq!(world.entities[0].dealer, Some(Dealer));
    assert!(world.entities[1].dealer.is_none());
    assert!(world.entities[2].dealer.is_none());
    assert!(world.entities[3].dealer.is_none());
    assert!(world.entities[table.table_id].needs_dealer.is_none());
}

#[test]
fn two_queens_tie_and_draw_again() {
    let mut world = World::new();
    let table = seated(&mut world, 4);
    give(&mut world, &table, 0, Rank::Queen);
    give(&mut world, &table, 1, Rank::Five);
    give(&mut world, &table, 2, Rank::Queen);
    give(&mut world, &table, 3, Rank::Three);
    let request = match draw_for_dealer(&mut world, table.session_id) {
        DealerDraw::Tie { request } => request,
        _ => panic!("a tie was expected"),
    };
    assert_eq!(request.session_id, table.session_id);
    assert_eq!(sorted(request.player_ids.clone()), vec![0, 2]);
    assert_eq!(world.entities[table.table_id].needs_dealer, Some(NeedsDealer));
    for player in 0..4 {
        assert!(world.entities[player].dealer.is_none());
    }
    let report = deal_cards(&mut world, &request);
    assert_eq!(report.dealt.len(), 2);
    for (player, card) in &report.dealt {
        assert_eq!(world.entities[*card].in_hand, Some(InHand { index_from_left: 1 }));
        assert!(*player == 0 || *player == 2);
    }
    match draw_for_dealer(&mut world, table.session_id) {
        DealerDraw::Selected { dealer, .. } => {
            let king_of_clubs = table.session_id + 52;
            let winner = report.dealt.iter().find(|deal| deal.1 == king_of_clubs).unwrap().0;
            assert_eq!(dealer, winner);
        }
        _ => panic!("a dealer was expected after the second draw"),
    }
    assert!(world.entities[table.table_id].needs_dealer.is_none());
}

#[test]
fn a_tie_is_scored_on_the_whole_hand() {
    let mut world = World::new();
    let table = seated(&mut world, 3);
    give(&mut world, &table, 0, Rank::Queen);
    give(&mut world, &table, 1, Rank::Queen);
    give(&mut world, &table, 2, Rank::Ten);
    give(&mut world, &table, 0, Rank::Two);
    give(&mut world, &table, 1, Rank::Two);
    match draw_for_dealer(&mut world, table.session_id) {
        DealerDraw::Tie { request } => assert_eq!(sorted(request.player_ids), vec![0, 1]),
        _ => panic!("a tie at 14 was expected"),
    }
    give(&mut world, &table, 2, Rank::Five);
    match draw_for_dealer(&mut world, table.session_id) {
        DealerDraw::Selected { dealer, .. } => assert_eq!(dealer, 2),
        _ => panic!("the player with 15 was expected to deal"),
    }
}

#[test]
fn only_the_players_without_a_card_are_dealt_to() {
    let mut world = World::new();
    let table = seated(&mut world, 4);
    give(&mut world, &table, 1, Rank::Ace);
    give(&mut world, &table, 3, Rank::Nine);
    match draw_for_dealer(&mut world, table.session_id) {
        DealerDraw::Deal { request } => assert_eq!(sorted(request.player_ids), vec![0, 2]),
        _ => panic!("a deal was expected"),
    }
    assert!(world.entities[1].dealer.is_none());
}

#[test]
fn fewer_than_two_players_choose_no_dealer() {
    let mut world = World::new();
    let table = seated(&mut world, 1);
    assert!(matches!(draw_for_dealer(&mut world, table.session_id), DealerDraw::TooFewPlayers));
    let empty = seated(&mut world, 0);
    assert!(matches!(draw_for_dealer(&mut world, empty.session_id), DealerDraw::TooFewPlayers));
    assert_eq!(world.entities[table.table_id].needs_dealer, Some(NeedsDealer));
}

#[test]
fn a_missing_session_is_reported() {
    let mut world = World::new();
    let table = seated(&mut world, 2);
    assert!(matches!(draw_for_dealer(&mut world, 5_000), DealerDraw::SessionNotFound));
    assert!(matches!(draw_for_dealer(&mut world, table.table_id), DealerDraw::SessionNotFound));
}

#[test]
fn the_draw_runs_until_one_player_leads() {
    let mut world = World::new();
    let table = seated(&mut world, 4);
    let mut ticks = 0;
    loop {
        let rounds = handle_tables_needing_dealer(&mut world);
        if rounds.is_empty() {
            break;
        }
        assert_eq!(rounds.len(), 1);
        assert_eq!(rounds[0].table_id, table.table_id);
        assert_eq!(rounds[0].session_id, table.session_id);
        let mut requests: Vec<DealCardsEvent> = Vec::new();
        for round in rounds {
            match round.draw {
                DealerDraw::Deal { request } => requests.push(request),
                DealerDraw::Tie { request } => requests.push(request),
                DealerDraw::Selected { .. } => {}
                _ => panic!("the session and its players are there"),
            }
        }
        handle_deal_cards_events(&mut world, &requests);
        ticks += 1;
        assert!(ticks < 10);
    }
    assert_eq!(ticks, 2);
    let dealers: Vec<usize> =
        (0..4).filter(|player| world.entities[*player].dealer.is_some()).collect();
    assert_eq!(dealers.len(), 1);
    let king_of_clubs = table.session_id + 52;
    assert_eq!(
        world.entities[king_of_clubs].belongs_to_player,
        Some(BelongsToPlayer(dealers[0]))
    );
    assert!(world.entities[table.table_id].needs_dealer.is_none());
}

#[test]
fn tables_draw_independently() {
    let mut world = World::new();
    let first = seated(&mut world, 2);
    let second = seated(&mut world, 3);
    give(&mut world, &first, first.player_ids[0], Rank::Four);
    give(&mut world, &first, first.player_ids[1], Rank::Nine);
    let rounds = handle_tables_needing_dealer(&mut world);
    assert_eq!(rounds.len(), 2);
    assert_eq!(rounds[0].table_id, first.table_id);
    assert_eq!(rounds[1].table_id, second.table_id);
    match &rounds[0].draw {
        DealerDraw::Selected { dealer, table_id } => {
            assert_eq!(*dealer, first.player_ids[1]);
            assert_eq!(*table_id, first.table_id);
        }
        _ => panic!("the first table has a sole highest card"),
    }
    match &rounds[1].draw {
        DealerDraw::Deal { request } => {
            assert_eq!(request.session_id, second.session_id);
            assert_eq!(sorted(request.player_ids.clone()), second.player_ids);
        }
        _ => panic!("the second table has no cards in hand yet"),
    }
    assert!(world.entities[first.table_id].needs_dealer.is_none());
    assert_eq!(world.entities[second.table_id].needs_dealer, Some(NeedsDealer));
    let again = handle_tables_needing_dealer(&mut world);
    assert_eq!(again.len(), 1);
    assert_eq!(again[0].table_id, second.table_id);
}

#[test]
fn cards_of_another_session_do_not_count() {
    let mut world = World::new();
    let first = seated(&mut world, 2);
    let second = seated(&mut world, 2);
    give(&mut world, &second, first.player_ids[0], Rank::Ace);
    match draw_for_dealer(&mut world, first.session_id) {
        DealerDraw::Deal { request } => {
            assert_eq!(sorted(request.player_ids), first.player_ids)
        }
        _ => panic!("both players of the first table hold none of its cards"),
    }
}
