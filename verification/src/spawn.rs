//! Setting up play: a table with its players and its session, and the deck of
//! a session.
use crate::cards::{new_deck, Card};
use crate::components::{
    InDeck, NeedsDealer, Player, Session, SessionRef, SpawnDeckEvent, SpawnTableEvent, Table,
};
use crate::ids::{Entity, IdSet};
use crate::world::{blank, EntityData, World, MAX_ENTITIES};
use vstd::prelude::*;

verus! {

/// A table that was set up.
pub struct TableSpawn {
    /// The table.
    pub table_id: Entity,
    /// The session that plays at the table.
    pub session_id: Entity,
    /// The players, in the order of their seats round the table.
    pub player_ids: Vec<Entity>,
    /// The request for the session's deck.
    pub deck_request: SpawnDeckEvent,
}

/// Whether the entities from `base` on are a table with `seats` players and
/// its session: first the players in the order of their seats, then the table,
/// which needs a dealer, then the session, which knows the table and exactly
/// these players and has no cards yet. The players and the table refer to the
/// session.
pub open spec fn is_table_at(entities: Seq<EntityData>, base: int, seats: int) -> bool {
    let table_id = base + seats;
    let session_id = base + seats + 1;
    let session_ref = Some(SessionRef(session_id as Entity));
    let session_data = entities[session_id];
    &&& 0 <= base
    &&& 0 <= seats
    &&& session_id < entities.len()
    &&& forall|id: int|
        base <= id < base + seats ==> #[trigger] entities[id] == (EntityData {
            player: Some(Player),
            session_ref,
            ..blank()
        })
    &&& entities[table_id] == (EntityData {
        table: Some(Table),
        needs_dealer: Some(NeedsDealer),
        session_ref,
        ..blank()
    })
    &&& session_data.session is Some
    &&& (EntityData { session: None, ..session_data }) == blank()
    &&& session_data.session->0.table_id == table_id
    &&& session_data.session->0.card_ids@ == Set::<Entity>::empty()
    &&& forall|id: Entity|
        session_data.session->0.player_ids@.contains(id) <==> base <= id < base + seats
}

/// Whether `spawned` tells of the table that stands at `base` with `seats`
/// players.
pub open spec fn tells_of_table(
    entities: Seq<EntityData>,
    base: int,
    seats: int,
    spawned: TableSpawn,
) -> bool {
    &&& is_table_at(entities, base, seats)
    &&& spawned.table_id == base + seats
    &&& spawned.session_id == base + seats + 1
    &&& spawned.deck_request.session_id == spawned.session_id
    &&& spawned.player_ids@.len() == seats
    &&& forall|seat: int| 0 <= seat < seats ==> #[trigger] spawned.player_ids@[seat] == base + seat
}

/// Sets up a table with `num_players` players. The new entities follow those
/// that were there, which do not change.
pub fn spawn_table(world: &mut World, num_players: usize) -> (spawned: TableSpawn)
    requires
        old(world).entities@.len() + num_players + 2 <= MAX_ENTITIES,
    ensures
        final(world).entities@.len() == old(world).entities@.len() + num_players + 2,
        forall|id: int|
            0 <= id < old(world).entities@.len() ==> #[trigger] final(world).entities@[id] == old(
                world,
            ).entities@[id],
        tells_of_table(
            final(world).entities@,
            old(world).entities@.len() as int,
            num_players as int,
            spawned,
        ),
        old(world).placements_exclusive() ==> final(world).placements_exclusive(),
        old(world).cards_in_play() ==> final(world).cards_in_play(),
{
    let base = world.entities.len();
    let table_id = base + num_players;
    let session_id = base + num_players + 1;
    let mut player_ids: Vec<Entity> = Vec::new();
    let mut members = IdSet::new();
    let mut seat: usize = 0;
    while seat < num_players
        invariant
            seat <= num_players,
            base == old(world).entities@.len(),
            base + num_players + 2 <= MAX_ENTITIES,
            session_id == base + num_players + 1,
            world.entities@.len() == base + seat,
            forall|id: int|
                0 <= id < base ==> #[trigger] world.entities@[id] == old(world).entities@[id],
            forall|id: int|
                base <= id < base + seat ==> #[trigger] world.entities@[id] == (EntityData {
                    player: Some(Player),
                    session_ref: Some(SessionRef(session_id)),
                    ..blank()
                }),
            player_ids@.len() == seat,
            forall|i: int| 0 <= i < seat ==> #[trigger] player_ids@[i] == base + i,
            forall|id: Entity| members@.contains(id) <==> base <= id < base + seat,
            old(world).placements_exclusive() ==> world.placements_exclusive(),
            old(world).cards_in_play() ==> world.cards_in_play(),
        decreases num_players - seat,
    {
        let id = world.spawn();
        world.entities[id].player = Some(Player);
        world.entities[id].session_ref = Some(SessionRef(session_id));
        player_ids.push(id);
        let ghost seated = members@;
        members.insert(id);
        assert forall|other: Entity| members@.contains(other) <==> base <= other < base + seat
            + 1 by {
            assert(members@ == seated.insert(id));
            assert(seated.contains(other) <==> base <= other < base + seat);
        }
        seat += 1;
    }
    let table = world.spawn();
    world.entities[table].table = Some(Table);
    world.entities[table].needs_dealer = Some(NeedsDealer);
    world.entities[table].session_ref = Some(SessionRef(session_id));
    let session = world.spawn();
    world.entities[session].session = Some(
        Session { table_id, player_ids: members, card_ids: IdSet::new() },
    );
    TableSpawn { table_id, session_id, player_ids, deck_request: SpawnDeckEvent { session_id } }
}

/// How many entities the first `k` requests for tables need.
pub open spec fn slots(events: Seq<SpawnTableEvent>, k: int) -> nat
    decreases k,
{
    if k <= 0 {
        0
    } else {
        slots(events, k - 1) + events[k - 1].num_players as nat + 2
    }
}

proof fn slots_grow(events: Seq<SpawnTableEvent>, j: int, k: int)
    requires
        0 <= j <= k,
    ensures
        slots(events, j) <= slots(events, k),
    decreases k - j,
{
    if j < k {
        slots_grow(events, j, k - 1);
    }
}

/// Sets up one table for each request, in the order of the requests. The table
/// of request `k` stands after the entities that were there and the tables of
/// the requests before it.
pub fn handle_spawn_table_events(world: &mut World, events: &Vec<SpawnTableEvent>) -> (spawned:
    Vec<TableSpawn>)
    requires
        old(world).entities@.len() + slots(events@, events@.len() as int) <= MAX_ENTITIES,
    ensures
        spawned@.len() == events@.len(),
        final(world).entities@.len() == old(world).entities@.len() + slots(
            events@,
            events@.len() as int,
        ),
        forall|id: int|
            0 <= id < old(world).entities@.len() ==> #[trigger] final(world).entities@[id] == old(
                world,
            ).entities@[id],
        forall|k: int|
            0 <= k < events@.len() ==> tells_of_table(
                final(world).entities@,
                (old(world).entities@.len() + slots(events@, k)) as int,
                events@[k].num_players as int,
                #[trigger] spawned@[k],
            ),
        old(world).placements_exclusive() ==> final(world).placements_exclusive(),
        old(world).cards_in_play() ==> final(world).cards_in_play(),
{
    let ghost before = world.entities@;
    let mut spawned: Vec<TableSpawn> = Vec::new();
    let mut k: usize = 0;
    while k < events.len()
        invariant
            k <= events@.len(),
            spawned@.len() == k,
            before == old(world).entities@,
            before.len() + slots(events@, events@.len() as int) <= MAX_ENTITIES,
            world.entities@.len() == before.len() + slots(events@, k as int),
            forall|id: int| 0 <= id < before.len() ==> #[trigger] world.entities@[id] == before[id],
            old(world).placements_exclusive() ==> world.placements_exclusive(),
            old(world).cards_in_play() ==> world.cards_in_play(),
            forall|j: int|
                0 <= j < k ==> tells_of_table(
                    world.entities@,
                    (before.len() + slots(events@, j)) as int,
                    events@[j].num_players as int,
                    #[trigger] spawned@[j],
                ),
        decreases events@.len() - k,
    {
        proof {
            slots_grow(events@, k + 1, events@.len() as int);
        }
        let ghost earlier = world.entities@;
        let ghost tables = spawned@;
        let table = spawn_table(world, events[k].num_players);
        spawned.push(table);
        proof {
            assert forall|j: int| 0 <= j < k implies is_table_at(
                world.entities@,
                (before.len() + slots(events@, j)) as int,
                events@[j].num_players as int,
            ) by {
                let base = (before.len() + slots(events@, j)) as int;
                let seats = events@[j].num_players as int;
                slots_grow(events@, j + 1, k as int);
                assert(spawned@[j] == tables[j]);
                assert(is_table_at(earlier, base, seats));
                assert(base + seats + 1 < earlier.len());
                assert forall|id: int| base <= id < base + seats implies #[trigger] world.entities@[id]
                    == earlier[id] by {}
                assert(world.entities@[base + seats] == earlier[base + seats]);
                assert(world.entities@[base + seats + 1] == earlier[base + seats + 1]);
            }
            assert(spawned@[k as int] == table);
            assert(earlier.len() == before.len() + slots(events@, k as int));
            assert forall|j: int| 0 <= j < k + 1 implies tells_of_table(
                world.entities@,
                (before.len() + slots(events@, j)) as int,
                events@[j].num_players as int,
                #[trigger] spawned@[j],
            ) by {
                if j < k {
                    assert(spawned@[j] == tables[j]);
                }
            }
        }
        k += 1;
    }
    spawned
}

/// What a request for a deck led to.
#[derive(Debug, Eq, PartialEq, Clone, Copy, Structural)]
pub enum DeckSpawn {
    /// There is no such session: no cards were made.
    SessionNotFound,
    /// The session's table is missing: no cards were made.
    TableNotFound,
    /// The 52 cards were made; they are `first_card` and the 51 entities after it.
    Spawned { first_card: Entity },
}

/// The `count` identities from `base` on.
pub open spec fn id_range(base: int, count: int) -> Set<Entity> {
    Set::new(|id: Entity| base <= id < base + count)
}

/// The card that stands at `index` of a new deck, as it is when it is made: it
/// lies in the deck at that index and nothing else is known of it.
pub open spec fn new_card(index: int) -> EntityData {
    EntityData {
        card: Some(new_deck()[index]),
        in_deck: Some(InDeck { index_from_bottom: index as usize }),
        ..blank()
    }
}

/// Whether `after` is what a request for a deck in `session_id` makes of
/// `before`, and `outcome` tells of it. Where the session and its table are
/// there, 52 new cards follow the entities that were there, in the order of a
/// new deck and with their place in that order as their index in the deck, and
/// the session knows them as its cards beside those that it had. Nothing else
/// changes.
pub open spec fn spawns_deck(
    before: Seq<EntityData>,
    after: Seq<EntityData>,
    session_id: Entity,
    outcome: DeckSpawn,
) -> bool {
    let found = session_id < before.len() && before[session_id as int].session is Some;
    let session = before[session_id as int].session->0;
    let table_id = session.table_id;
    let table_found = table_id < before.len() && before[table_id as int].table is Some;
    let base = before.len();
    if !found {
        outcome == DeckSpawn::SessionNotFound && after == before
    } else if !table_found {
        outcome == DeckSpawn::TableNotFound && after == before
    } else {
        let grown = after[session_id as int].session->0;
        &&& outcome == DeckSpawn::Spawned { first_card: base as Entity }
        &&& after.len() == base + 52
        &&& forall|index: int| 0 <= index < 52 ==> #[trigger] after[base + index] == new_card(index)
        &&& forall|id: int|
            0 <= id < base && id != session_id ==> #[trigger] after[id] == before[id]
        &&& after[session_id as int].session is Some
        &&& after[session_id as int] == (EntityData {
            session: after[session_id as int].session,
            ..before[session_id as int]
        })
        &&& grown.table_id == table_id
        &&& grown.player_ids == session.player_ids
        &&& grown.card_ids@ == session.card_ids@.union(id_range(base as int, 52))
    }
}

/// Makes the deck of a session: the 52 cards of a new deck, stacked from index
/// 0 at the bottom.
pub fn spawn_deck(world: &mut World, session_id: Entity) -> (outcome: DeckSpawn)
    requires
        old(world).entities@.len() + 52 <= MAX_ENTITIES,
    ensures
        spawns_deck(old(world).entities@, final(world).entities@, session_id, outcome),
        old(world).placements_exclusive() ==> final(world).placements_exclusive(),
        old(world).cards_in_play() ==> final(world).cards_in_play(),
{
    let base = world.entities.len();
    if session_id >= base {
        return DeckSpawn::SessionNotFound;
    }
    let table_id = match &world.entities[session_id].session {
        Some(session) => session.table_id,
        None => {
            return DeckSpawn::SessionNotFound;
        },
    };
    if table_id >= base || world.entities[table_id].table.is_none() {
        return DeckSpawn::TableNotFound;
    }
    let ghost before = world.entities@;
    let ghost session = before[session_id as int].session->0;
    let cards = Card::get_new_deck();
    let mut index: usize = 0;
    assert(session.card_ids@ =~= session.card_ids@.union(id_range(base as int, 0)));
    while index < 52
        invariant
            index <= 52,
            cards@ == new_deck(),
            base == before.len(),
            base + 52 <= MAX_ENTITIES,
            session_id < base,
            before == old(world).entities@,
            session == before[session_id as int].session->0,
            world.entities@.len() == base + index,
            forall|i: int| 0 <= i < index ==> #[trigger] world.entities@[base + i] == new_card(i),
            forall|id: int|
                0 <= id < base && id != session_id ==> #[trigger] world.entities@[id] == before[id],
            world.entities@[session_id as int].session is Some,
            world.entities@[session_id as int] == (EntityData {
                session: world.entities@[session_id as int].session,
                ..before[session_id as int]
            }),
            world.entities@[session_id as int].session->0.table_id == session.table_id,
            world.entities@[session_id as int].session->0.player_ids == session.player_ids,
            world.entities@[session_id as int].session->0.card_ids@ == session.card_ids@.union(
                id_range(base as int, index as int),
            ),
            old(world).placements_exclusive() ==> world.placements_exclusive(),
            old(world).cards_in_play() ==> world.cards_in_play(),
        decreases 52 - index,
    {
        let card_id = world.spawn();
        world.entities[card_id].card = Some(cards[index]);
        world.entities[card_id].in_deck = Some(InDeck { index_from_bottom: index });
        let ghost known = world.entities@[session_id as int].session->0.card_ids@;
        match world.entities[session_id].session.take() {
            Some(mut grown) => {
                grown.card_ids.insert(card_id);
                world.entities[session_id].session = Some(grown);
            },
            None => {},
        }
        assert(known.insert(card_id) =~= session.card_ids@.union(
            id_range(base as int, index + 1),
        ));
        index += 1;
    }
    DeckSpawn::Spawned { first_card: base }
}

/// Whether `steps` are the states that the requests lead through, from the
/// state before the first request to the state after the last, and `outcomes`
/// tell of each request.
pub open spec fn spawns_decks(
    steps: Seq<Seq<EntityData>>,
    events: Seq<SpawnDeckEvent>,
    outcomes: Seq<DeckSpawn>,
) -> bool {
    &&& steps.len() == events.len() + 1
    &&& outcomes.len() == events.len()
    &&& forall|k: int|
        0 <= k < events.len() ==> spawns_deck(
            #[trigger] steps[k],
            steps[k + 1],
            events[k].session_id,
            outcomes[k],
        )
}

/// Makes a deck for each request, in the order of the requests. A request whose
/// session or table is missing is passed over.
pub fn handle_spawn_deck_events(world: &mut World, events: &Vec<SpawnDeckEvent>) -> (outcomes: Vec<
    DeckSpawn,
>)
    requires
        old(world).entities@.len() + 52 * events@.len() <= MAX_ENTITIES,
    ensures
        exists|steps: Seq<Seq<EntityData>>| #[trigger]
            spawns_decks(steps, events@, outcomes@) && steps[0] == old(world).entities@
                && steps[events@.len() as int] == final(world).entities@,
        old(world).placements_exclusive() ==> final(world).placements_exclusive(),
        old(world).cards_in_play() ==> final(world).cards_in_play(),
{
    let mut outcomes: Vec<DeckSpawn> = Vec::new();
    let ghost mut steps: Seq<Seq<EntityData>> = seq![world.entities@];
    let mut k: usize = 0;
    while k < events.len()
        invariant
            k <= events@.len(),
            outcomes@.len() == k,
            steps.len() == k + 1,
            steps[0] == old(world).entities@,
            steps[k as int] == world.entities@,
            old(world).entities@.len() + 52 * events@.len() <= MAX_ENTITIES,
            world.entities@.len() <= old(world).entities@.len() + 52 * k,
            old(world).placements_exclusive() ==> world.placements_exclusive(),
            old(world).cards_in_play() ==> world.cards_in_play(),
            forall|j: int|
                0 <= j < k ==> spawns_deck(
                    #[trigger] steps[j],
                    steps[j + 1],
                    events@[j].session_id,
                    outcomes@[j],
                ),
        decreases events@.len() - k,
    {
        let outcome = spawn_deck(world, events[k].session_id);
        outcomes.push(outcome);
        proof {
            steps = steps.push(world.entities@);
        }
        k += 1;
    }
    proof {
        assert(spawns_decks(steps, events@, outcomes@));
    }
    outcomes
}

} // verus!
