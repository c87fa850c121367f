//! The requests that a user can make of every session at once: a deal to all
//! players, waking what rests, and moving all cards back into the deck.
use crate::components::{DealCardsEvent, InDeck};
use crate::ids::{distinct_ids_are_few, Entity};
use crate::world::{EntityData, World};
use vstd::prelude::*;

verus! {

/// Whether `events` has a request for the session `id`.
pub open spec fn requests_deal(events: Seq<DealCardsEvent>, id: Entity) -> bool {
    exists|k: int| 0 <= k < events.len() && (#[trigger] events[k]).session_id == id
}

/// Asks for a deal to all players of every session, if the key was pressed. There
/// is one request for each session, the sessions by rising identity; a request
/// lists each player of its session once, in the order in which the player set
/// hands them out.
pub fn handle_deal_key_press(world: &World, just_pressed: bool) -> (events: Vec<DealCardsEvent>)
    ensures
        !just_pressed ==> events@.len() == 0,
        forall|i: int, j: int|
            0 <= i < j < events@.len() ==> events@[i].session_id < events@[j].session_id,
        forall|k: int|
            0 <= k < events@.len() ==> {
                let event = #[trigger] events@[k];
                &&& world.is_session(event.session_id)
                &&& event.player_ids@.no_duplicates()
                &&& event.player_ids@.to_set() == world.session(event.session_id).player_ids@
            },
        just_pressed ==> forall|id: Entity| #[trigger]
            world.is_session(id) ==> requests_deal(events@, id),
{
    let mut events: Vec<DealCardsEvent> = Vec::new();
    if !just_pressed {
        return events;
    }
    let size = world.entities.len();
    let mut id: usize = 0;
    while id < size
        invariant
            id <= size,
            size == world.entities@.len(),
            forall|i: int, j: int|
                0 <= i < j < events@.len() ==> events@[i].session_id < events@[j].session_id,
            forall|k: int|
                0 <= k < events@.len() ==> {
                    let event = #[trigger] events@[k];
                    &&& event.session_id < id
                    &&& world.is_session(event.session_id)
                    &&& event.player_ids@.no_duplicates()
                    &&& event.player_ids@.to_set() == world.session(event.session_id).player_ids@
                },
            forall|e: Entity|
                e < id && #[trigger] world.is_session(e) ==> requests_deal(events@, e),
        decreases size - id,
    {
        match &world.entities[id].session {
            Some(session) => {
                let ghost before = events@;
                let player_ids = session.player_ids.to_vec();
                events.push(DealCardsEvent { session_id: id, player_ids });
                assert forall|e: Entity|
                    e < id + 1 && #[trigger] world.is_session(e) implies requests_deal(
                    events@,
                    e,
                ) by {
                    if e < id {
                        let k = choose|k: int|
                            0 <= k < before.len() && (#[trigger] before[k]).session_id == e;
                        assert(events@[k].session_id == e);
                    } else {
                        assert(events@[before.len() as int].session_id == e);
                    }
                }
            },
            None => {},
        }
        id += 1;
    }
    events
}

/// How many of the first `n` entities rest.
pub open spec fn sleepers(entities: Seq<EntityData>, n: int) -> nat
    decreases n,
{
    if n <= 0 {
        0
    } else {
        sleepers(entities, n - 1) + (if entities[n - 1].sleeping is Some {
            1nat
        } else {
            0nat
        })
    }
}

proof fn sleepers_are_few(entities: Seq<EntityData>, n: int)
    requires
        0 <= n,
    ensures
        sleepers(entities, n) <= n,
    decreases n,
{
    if n > 0 {
        sleepers_are_few(entities, n - 1);
    }
}

/// Wakes every entity that rests, if the key was pressed, so that its pose is
/// computed again. Returns how many were woken.
pub fn handle_sleeping_key_press(world: &mut World, just_pressed: bool) -> (woken: usize)
    ensures
        final(world).entities@.len() == old(world).entities@.len(),
        !just_pressed ==> woken == 0 && final(world).entities@ == old(world).entities@,
        just_pressed ==> woken == sleepers(
            old(world).entities@,
            old(world).entities@.len() as int,
        ),
        just_pressed ==> forall|id: int|
            0 <= id < old(world).entities@.len() ==> #[trigger] final(world).entities@[id] == (
            EntityData { sleeping: None, ..old(world).entities@[id] }),
        old(world).placements_exclusive() ==> final(world).placements_exclusive(),
        old(world).cards_in_play() ==> final(world).cards_in_play(),
{
    if !just_pressed {
        return 0;
    }
    let ghost before = world.entities@;
    let size = world.entities.len();
    let mut woken: usize = 0;
    let mut id: usize = 0;
    while id < size
        invariant
            id <= size,
            size == before.len(),
            before == old(world).entities@,
            world.entities@.len() == size,
            woken == sleepers(before, id as int),
            forall|k: int|
                0 <= k < id ==> #[trigger] world.entities@[k] == (EntityData {
                    sleeping: None,
                    ..before[k]
                }),
            forall|k: int| id <= k < size ==> #[trigger] world.entities@[k] == before[k],
            old(world).placements_exclusive() ==> world.placements_exclusive(),
            old(world).cards_in_play() ==> world.cards_in_play(),
        decreases size - id,
    {
        proof {
            sleepers_are_few(before, id as int);
        }
        if world.entities[id].sleeping.is_some() {
            world.entities[id].sleeping = None;
            woken += 1;
        }
        id += 1;
    }
    woken
}

/// A card after it was moved back into the deck at `index`: it is in no hand,
/// not played, not the trump card and in no trick, nobody owns it, and it no
/// longer rests.
pub open spec fn back_in_deck(data: EntityData, index: usize) -> EntityData {
    EntityData {
        in_hand: None,
        played: None,
        trump: None,
        in_taken_trick: None,
        belongs_to_player: None,
        in_deck: Some(InDeck { index_from_bottom: index }),
        sleeping: None,
        ..data
    }
}

/// The entities after the cards in `order` were moved back into the deck, the
/// first to the bottom.
pub open spec fn after_shuffle(entities: Seq<EntityData>, order: Seq<Entity>) -> Seq<EntityData> {
    Seq::new(
        entities.len(),
        |id: int|
            if order.contains(id as Entity) {
                back_in_deck(entities[id], order.index_of(id as Entity) as usize)
            } else {
                entities[id]
            },
    )
}

/// What moving the cards of one session back into the deck did.
pub struct ShuffleReport {
    /// The session.
    pub session_id: Entity,
    /// The cards, from the bottom of the deck up.
    pub order: Vec<Entity>,
}

/// Whether `order` lists the cards of the session that name an entity, each once.
pub open spec fn lists_cards_of(
    entities: Seq<EntityData>,
    session_id: Entity,
    order: Seq<Entity>,
) -> bool {
    &&& session_id < entities.len()
    &&& entities[session_id as int].session is Some
    &&& order.no_duplicates()
    &&& forall|id: Entity|
        order.contains(id) <==> entities[session_id as int].session->0.card_ids@.contains(id) && id
            < entities.len()
}

proof fn place_in_order(order: Seq<Entity>, k: int)
    requires
        order.no_duplicates(),
        0 <= k < order.len(),
    ensures
        order.contains(order[k]),
        order.index_of(order[k]) == k,
{
    assert(order.contains(order[k]));
    let found = order.index_of(order[k]);
    assert(0 <= found < order.len() && order[found] == order[k]);
}

/// Moves all cards of one session back into its deck. The cards are stacked in
/// the order in which the session's card set hands them out, with the indices 0,
/// 1, 2 and so on without a gap. Returns that order, or nothing if `session_id`
/// names no session.
pub fn shuffle_back_in(world: &mut World, session_id: Entity) -> (order: Option<Vec<Entity>>)
    ensures
        order is Some <==> old(world).is_session(session_id),
        order is None ==> final(world).entities@ == old(world).entities@,
        order is Some ==> lists_cards_of(old(world).entities@, session_id, order->0@),
        order is Some ==> final(world).entities@ == after_shuffle(
            old(world).entities@,
            order->0@,
        ),
        order is Some ==> forall|k: int|
            0 <= k < order->0@.len() ==> #[trigger] final(world).entities@[order->0@[k] as int]
                == back_in_deck(old(world).entities@[order->0@[k] as int], k as usize),
        old(world).placements_exclusive() ==> final(world).placements_exclusive(),
        old(world).cards_in_play() ==> final(world).cards_in_play(),
{
    let size = world.entities.len();
    if session_id >= size {
        return None;
    }
    let ids = match &world.entities[session_id].session {
        Some(session) => session.card_ids.to_vec(),
        None => {
            return None;
        },
    };
    let ghost before = world.entities@;
    let ghost cards = before[session_id as int].session->0.card_ids@;
    let mut order: Vec<Entity> = Vec::new();
    let ghost mut source: Seq<int> = Seq::empty();
    let mut k: usize = 0;
    while k < ids.len()
        invariant
            k <= ids@.len(),
            size == before.len(),
            before == old(world).entities@,
            ids@.no_duplicates(),
            ids@.to_set() == cards,
            world.entities@.len() == size,
            order@.len() <= k,
            source.len() == order@.len(),
            forall|i: int|
                0 <= i < order@.len() ==> 0 <= #[trigger] source[i] < k && order@[i]
                    == ids@[source[i]] && order@[i] < size,
            forall|i: int, j: int| 0 <= i < j < order@.len() ==> source[i] < source[j],
            forall|j: int| 0 <= j < k && #[trigger] ids@[j] < size ==> order@.contains(ids@[j]),
            forall|i: int|
                0 <= i < order@.len() ==> world.entities@[#[trigger] order@[i] as int]
                    == back_in_deck(before[order@[i] as int], i as usize),
            forall|id: Entity|
                id < size && !order@.contains(id) ==> #[trigger] world.entities@[id as int]
                    == before[id as int],
            old(world).placements_exclusive() ==> world.placements_exclusive(),
            old(world).cards_in_play() ==> world.cards_in_play(),
        decreases ids@.len() - k,
    {
        let card_id = ids[k];
        if card_id < size {
            let index = order.len();
            let ghost earlier = order@;
            proof {
                if earlier.contains(card_id) {
                    let i = choose|i: int| 0 <= i < earlier.len() && earlier[i] == card_id;
                    assert(source[i] < k);
                    assert(ids@[source[i]] != ids@[k as int]);
                }
                assert(world.entities@[card_id as int] == before[card_id as int]);
            }
            world.entities[card_id].in_hand = None;
            world.entities[card_id].played = None;
            world.entities[card_id].trump = None;
            world.entities[card_id].in_taken_trick = None;
            world.entities[card_id].belongs_to_player = None;
            world.entities[card_id].in_deck = Some(InDeck { index_from_bottom: index });
            world.entities[card_id].sleeping = None;
            order.push(card_id);
            proof {
                source = source.push(k as int);
                assert(order@[index as int] == card_id);
                assert forall|j: int|
                    0 <= j < k + 1 && #[trigger] ids@[j] < size implies order@.contains(
                    ids@[j],
                ) by {
                    if j < k {
                        assert(earlier.contains(ids@[j]));
                        let i = choose|i: int| 0 <= i < earlier.len() && earlier[i] == ids@[j];
                        assert(order@[i] == ids@[j]);
                    }
                }
                assert forall|i: int| 0 <= i < order@.len() implies world.entities@[
                #[trigger] order@[i] as int] == back_in_deck(
                    before[order@[i] as int],
                    i as usize,
                ) by {
                    if i < index {
                        assert(earlier[i] == order@[i]);
                        assert(source[i] < k);
                        assert(ids@[source[i]] != ids@[k as int]);
                    }
                }
                assert forall|id: Entity|
                    id < size && !order@.contains(id) implies #[trigger] world.entities@[id as int]
                    == before[id as int] by {
                    if earlier.contains(id) {
                        let i = choose|i: int| 0 <= i < earlier.len() && earlier[i] == id;
                        assert(order@[i] == id);
                    }
                }
            }
        }
        k += 1;
    }
    proof {
        assert forall|i: int, j: int| 0 <= i < j < order@.len() implies order@[i] != order@[j] by {
            assert(source[i] < source[j]);
        }
        assert forall|id: Entity|
            order@.contains(id) <==> cards.contains(id) && id < before.len() by {
            if order@.contains(id) {
                let i = choose|i: int| 0 <= i < order@.len() && order@[i] == id;
                assert(ids@.contains(ids@[source[i]]));
            }
            if cards.contains(id) && id < before.len() {
                assert(ids@.to_set().contains(id));
                assert(ids@.contains(id));
                let j = choose|j: int| 0 <= j < ids@.len() && ids@[j] == id;
                assert(order@.contains(ids@[j]));
            }
        }
        assert forall|id: int| 0 <= id < size implies world.entities@[id] == after_shuffle(
            before,
            order@,
        )[id] by {
            let entity = id as Entity;
            if order@.contains(entity) {
                let i = choose|i: int| 0 <= i < order@.len() && order@[i] == entity;
                place_in_order(order@, i);
                assert(world.entities@[order@[i] as int] == back_in_deck(
                    before[order@[i] as int],
                    i as usize,
                ));
            } else {
                assert(world.entities@[entity as int] == before[entity as int]);
            }
        }
        assert(world.entities@ =~= after_shuffle(before, order@));
    }
    Some(order)
}

/// The entities after the cards of the first `k` reports were moved back, one
/// session after the other.
pub open spec fn after_shuffles(entities: Seq<EntityData>, reports: Seq<ShuffleReport>, k: int)
    -> Seq<EntityData>
    decreases k,
{
    if k <= 0 {
        entities
    } else {
        after_shuffle(after_shuffles(entities, reports, k - 1), reports[k - 1].order@)
    }
}

/// Whether `reports` has a report for the session `id`.
pub open spec fn reports_shuffle(reports: Seq<ShuffleReport>, id: Entity) -> bool {
    exists|k: int| 0 <= k < reports.len() && (#[trigger] reports[k]).session_id == id
}

proof fn after_shuffles_reads_a_prefix(
    entities: Seq<EntityData>,
    shorter: Seq<ShuffleReport>,
    longer: Seq<ShuffleReport>,
    k: int,
)
    requires
        k <= shorter.len() <= longer.len(),
        forall|j: int| 0 <= j < shorter.len() ==> shorter[j] == longer[j],
    ensures
        after_shuffles(entities, shorter, k) == after_shuffles(entities, longer, k),
    decreases k,
{
    if k > 0 {
        after_shuffles_reads_a_prefix(entities, shorter, longer, k - 1);
    }
}

proof fn shuffles_keep_sessions(entities: Seq<EntityData>, reports: Seq<ShuffleReport>, k: int)
    ensures
        after_shuffles(entities, reports, k).len() == entities.len(),
        forall|id: int|
            0 <= id < entities.len() ==> (#[trigger] after_shuffles(
                entities,
                reports,
                k,
            )[id]).session == entities[id].session,
    decreases k,
{
    if k > 0 {
        shuffles_keep_sessions(entities, reports, k - 1);
    }
}

/// Moves all cards of every session back into its deck, if the key was pressed,
/// the sessions by rising identity. Each report tells what was done to the
/// entities as the reports before it left them.
pub fn handle_shuffle_back_in_key_press(world: &mut World, just_pressed: bool) -> (reports: Vec<
    ShuffleReport,
>)
    ensures
        !just_pressed ==> reports@.len() == 0 && final(world).entities@ == old(world).entities@,
        final(world).entities@ == after_shuffles(
            old(world).entities@,
            reports@,
            reports@.len() as int,
        ),
        forall|k: int|
            0 <= k < reports@.len() ==> lists_cards_of(
                after_shuffles(old(world).entities@, reports@, k),
                (#[trigger] reports@[k]).session_id,
                reports@[k].order@,
            ),
        forall|i: int, j: int|
            0 <= i < j < reports@.len() ==> reports@[i].session_id < reports@[j].session_id,
        just_pressed ==> forall|id: Entity|
            old(world).is_session(id) <==> reports_shuffle(reports@, id),
        old(world).placements_exclusive() ==> final(world).placements_exclusive(),
        old(world).cards_in_play() ==> final(world).cards_in_play(),
{
    let mut reports: Vec<ShuffleReport> = Vec::new();
    if !just_pressed {
        return reports;
    }
    let ghost before = world.entities@;
    let size = world.entities.len();
    let mut id: usize = 0;
    while id < size
        invariant
            id <= size,
            size == before.len(),
            before == old(world).entities@,
            world.entities@ == after_shuffles(before, reports@, reports@.len() as int),
            forall|k: int|
                0 <= k < reports@.len() ==> lists_cards_of(
                    after_shuffles(before, reports@, k),
                    (#[trigger] reports@[k]).session_id,
                    reports@[k].order@,
                ),
            forall|k: int| 0 <= k < reports@.len() ==> (#[trigger] reports@[k]).session_id < id,
            forall|i: int, j: int|
                0 <= i < j < reports@.len() ==> reports@[i].session_id < reports@[j].session_id,
            forall|e: Entity| e < id && old(world).is_session(e) ==> reports_shuffle(reports@, e),
            old(world).placements_exclusive() ==> world.placements_exclusive(),
            old(world).cards_in_play() ==> world.cards_in_play(),
        decreases size - id,
    {
        proof {
            shuffles_keep_sessions(before, reports@, reports@.len() as int);
        }
        let ghost earlier = reports@;
        match shuffle_back_in(world, id) {
            Some(order) => {
                reports.push(ShuffleReport { session_id: id, order });
                proof {
                    let count = earlier.len() as int;
                    assert forall|k: int| 0 <= k <= count implies after_shuffles(
                        before,
                        reports@,
                        k,
                    ) == after_shuffles(before, earlier, k) by {
                        after_shuffles_reads_a_prefix(before, earlier, reports@, k);
                    }
                    assert(after_shuffles(before, reports@, count + 1) == after_shuffle(
                        after_shuffles(before, reports@, count),
                        reports@[count].order@,
                    ));
                    assert forall|e: Entity|
                        e < id + 1 && old(world).is_session(e) implies reports_shuffle(
                        reports@,
                        e,
                    ) by {
                        if e < id {
                            let k = choose|k: int|
                                0 <= k < earlier.len() && (#[trigger] earlier[k]).session_id == e;
                            assert(reports@[k] == earlier[k]);
                        } else {
                            assert(reports@[count].session_id == e);
                        }
                    }
                }
            },
            None => {},
        }
        id += 1;
    }
    proof {
        assert forall|e: Entity| reports_shuffle(reports@, e) implies old(world).is_session(e) by {
            let k = choose|k: int|
                0 <= k < reports@.len() && (#[trigger] reports@[k]).session_id == e;
            shuffles_keep_sessions(before, reports@, k);
        }
    }
    reports
}

/// After a session's cards were moved back into the deck, every one of them is
/// in the deck and nowhere else, nobody owns it, and the indices in the deck are
/// 0, 1, 2 and so on, each once. Every other entity is as it was.
pub proof fn shuffle_stacks_every_card(
    entities: Seq<EntityData>,
    session_id: Entity,
    order: Seq<Entity>,
)
    requires
        lists_cards_of(entities, session_id, order),
        entities.len() <= usize::MAX,
    ensures
        after_shuffle(entities, order).len() == entities.len(),
        order.len() <= entities.len(),
        forall|k: int|
            0 <= k < order.len() ==> #[trigger] after_shuffle(entities, order)[order[k] as int]
                == back_in_deck(entities[order[k] as int], k as usize),
        forall|id: Entity|
            id < entities.len() && entities[session_id as int].session->0.card_ids@.contains(id)
                ==> {
                let card = #[trigger] after_shuffle(entities, order)[id as int];
                &&& card.in_deck is Some
                &&& card.in_deck->0.index_from_bottom < order.len()
                &&& order[card.in_deck->0.index_from_bottom as int] == id
                &&& card.in_hand is None
                &&& card.played is None
                &&& card.trump is None
                &&& card.in_taken_trick is None
                &&& card.belongs_to_player is None
                &&& card.placements() == 1
            },
        forall|id: Entity|
            id < entities.len() && !entities[session_id as int].session->0.card_ids@.contains(id)
                ==> #[trigger] after_shuffle(entities, order)[id as int] == entities[id as int],
{
    let after = after_shuffle(entities, order);
    assert forall|k: int| 0 <= k < order.len() implies #[trigger] order[k] < entities.len() by {
        assert(order.contains(order[k]));
    }
    distinct_ids_are_few(order, entities.len());
    assert forall|k: int| 0 <= k < order.len() implies #[trigger] after[order[k] as int]
        == back_in_deck(entities[order[k] as int], k as usize) by {
        place_in_order(order, k);
        assert(order.contains(order[k]));
    }
    assert forall|id: Entity|
        id < entities.len() && entities[session_id as int].session->0.card_ids@.contains(
            id,
        ) implies {
        let card = #[trigger] after[id as int];
        &&& card.in_deck is Some
        &&& card.in_deck->0.index_from_bottom < order.len()
        &&& order[card.in_deck->0.index_from_bottom as int] == id
        &&& card.in_hand is None
        &&& card.played is None
        &&& card.trump is None
        &&& card.in_taken_trick is None
        &&& card.belongs_to_player is None
        &&& card.placements() == 1
    } by {
        assert(order.contains(id));
        let k = choose|k: int| 0 <= k < order.len() && order[k] == id;
        place_in_order(order, k);
        assert(after[order[k] as int] == back_in_deck(entities[order[k] as int], k as usize));
    }
}

} // verus!
