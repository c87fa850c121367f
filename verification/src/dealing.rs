//! Dealing: cards leave the top of a session's deck and join the hands of the
//! players that a request lists, one card for each player in list order.
use crate::components::{BelongsToPlayer, DealCardsEvent, InHand};
use crate::ids::{count_in, distinct_ids_are_few, Entity, IdMap};
use crate::select::{in_pile, lists, orders_pile, sorted_pile, Pile};
use crate::world::{exclusive, hand_count, EntityData, World, MAX_ENTITIES};
use vstd::prelude::*;

verus! {

/// What a deal request led to.
pub struct DealReport {
    /// The session that the request named.
    pub session_id: Entity,
    /// Whether that session exists. Nothing is dealt if it does not.
    pub session_found: bool,
    /// The cards that were dealt, in the order of dealing: the player first,
    /// then the card.
    pub dealt: Vec<(Entity, Entity)>,
    /// How many of the listed players got no card because the deck ran out.
    pub missing: usize,
}

/// A card after it was dealt to `player`: it has left the deck, belongs to the
/// player, stands at `index` in the hand and no longer rests.
pub open spec fn dealt_to(data: EntityData, player: Entity, index: usize) -> EntityData {
    EntityData {
        in_deck: None,
        belongs_to_player: Some(BelongsToPlayer(player)),
        in_hand: Some(InHand { index_from_left: index }),
        sleeping: None,
        ..data
    }
}

/// How many of the first `k` deals went to `player`.
pub open spec fn deals_before(dealt: Seq<(Entity, Entity)>, k: int, player: Entity) -> nat
    decreases k,
{
    if k <= 0 {
        0
    } else {
        deals_before(dealt, k - 1, player) + (if dealt[k - 1].0 == player {
            1nat
        } else {
            0nat
        })
    }
}

/// The index in the hand that the deal number `k` gives: the size that the
/// player's hand had before the request, and one more for each earlier deal of
/// the request to the same player.
pub open spec fn index_of_deal(entities: Seq<EntityData>, dealt: Seq<(Entity, Entity)>, k: int)
    -> nat {
    hand_count(entities, dealt[k].0, entities.len() as int) + deals_before(dealt, k, dealt[k].0)
}

/// The entities after the first `k` deals of a request were made.
pub open spec fn after_deals(entities: Seq<EntityData>, dealt: Seq<(Entity, Entity)>, k: int)
    -> Seq<EntityData>
    decreases k,
{
    if k <= 0 {
        entities
    } else {
        let earlier = after_deals(entities, dealt, k - 1);
        let card = dealt[k - 1].1 as int;
        earlier.update(
            card,
            dealt_to(earlier[card], dealt[k - 1].0, index_of_deal(entities, dealt, k - 1) as usize),
        )
    }
}

/// Whether `dealt` has a deal of the card `id`.
pub open spec fn deals_card(dealt: Seq<(Entity, Entity)>, id: Entity) -> bool {
    exists|k: int| 0 <= k < dealt.len() && (#[trigger] dealt[k]).1 == id
}

/// Whether `dealt` is a deal from the top of the pile of undealt cards among
/// `cards` to `players`: the players are served in list order, each card is an
/// undealt card of the session and is dealt once, the indices in the deck never
/// rise from one deal to the next, no card that stays in the deck lies above a
/// dealt one, and players go without a card only when the deck has run out.
pub open spec fn deals_from_top(
    entities: Seq<EntityData>,
    cards: Set<Entity>,
    players: Seq<Entity>,
    dealt: Seq<(Entity, Entity)>,
) -> bool {
    &&& dealt.len() <= players.len()
    &&& forall|k: int| 0 <= k < dealt.len() ==> (#[trigger] dealt[k]).0 == players[k]
    &&& forall|k: int|
        0 <= k < dealt.len() ==> in_pile(entities, cards, Pile::Undealt, (#[trigger] dealt[k]).1)
    &&& forall|i: int, j: int|
        0 <= i < j < dealt.len() ==> {
            &&& dealt[i].1 != dealt[j].1
            &&& Pile::Undealt.index(entities[dealt[i].1 as int]) >= Pile::Undealt.index(
                entities[dealt[j].1 as int],
            )
        }
    &&& forall|id: Entity, k: int|
        0 <= k < dealt.len() && #[trigger] in_pile(entities, cards, Pile::Undealt, id)
            && !deals_card(dealt, id) ==> Pile::Undealt.index(entities[id as int])
            <= Pile::Undealt.index(entities[(#[trigger] dealt[k]).1 as int])
    &&& dealt.len() < players.len() ==> forall|id: Entity| #[trigger]
        in_pile(entities, cards, Pile::Undealt, id) ==> deals_card(dealt, id)
}

/// Whether `report` tells what the request `event` led to on `entities`.
pub open spec fn answers_request(
    entities: Seq<EntityData>,
    session_id: Entity,
    players: Seq<Entity>,
    report: DealReport,
) -> bool {
    &&& report.session_id == session_id
    &&& report.session_found == (session_id < entities.len()
        && entities[session_id as int].session is Some)
    &&& report.missing == players.len() - report.dealt@.len()
    &&& if report.session_found {
        deals_from_top(
            entities,
            entities[session_id as int].session->0.card_ids@,
            players,
            report.dealt@,
        )
    } else {
        report.dealt@.len() == 0
    }
}

/// No hand holds more cards than the entities that were counted.
pub proof fn hand_count_is_bounded(entities: Seq<EntityData>, player: Entity, n: int)
    requires
        0 <= n,
    ensures
        hand_count(entities, player, n) <= n,
    decreases n,
{
    if n > 0 {
        hand_count_is_bounded(entities, player, n - 1);
    }
}

proof fn deals_before_reads_a_prefix(
    shorter: Seq<(Entity, Entity)>,
    longer: Seq<(Entity, Entity)>,
    k: int,
    player: Entity,
)
    requires
        k <= shorter.len() <= longer.len(),
        forall|j: int| 0 <= j < shorter.len() ==> shorter[j] == longer[j],
    ensures
        deals_before(shorter, k, player) == deals_before(longer, k, player),
        deals_before(shorter, k, player) <= k || k < 0,
    decreases k,
{
    if k > 0 {
        deals_before_reads_a_prefix(shorter, longer, k - 1, player);
    }
}

proof fn after_deals_reads_a_prefix(
    entities: Seq<EntityData>,
    shorter: Seq<(Entity, Entity)>,
    longer: Seq<(Entity, Entity)>,
    k: int,
)
    requires
        k <= shorter.len() <= longer.len(),
        forall|j: int| 0 <= j < shorter.len() ==> shorter[j] == longer[j],
    ensures
        after_deals(entities, shorter, k) == after_deals(entities, longer, k),
    decreases k,
{
    if k > 0 {
        after_deals_reads_a_prefix(entities, shorter, longer, k - 1);
        deals_before_reads_a_prefix(shorter, longer, k - 1, shorter[k - 1].0);
    }
}

/// The size of every hand, counted over all entities.
fn hand_sizes(world: &World) -> (sizes: IdMap)
    requires
        world.wf(),
    ensures
        forall|player: Entity| #[trigger] count_in(sizes@, player) == world.hand_size(player),
{
    let mut sizes = IdMap::new();
    let size = world.entities.len();
    let mut id: usize = 0;
    while id < size
        invariant
            id <= size,
            size == world.entities@.len(),
            size <= MAX_ENTITIES,
            forall|player: Entity| #[trigger]
                count_in(sizes@, player) == hand_count(world.entities@, player, id as int),
        decreases size - id,
    {
        let data = &world.entities[id];
        if data.card.is_some() && data.in_hand.is_some() {
            match data.belongs_to_player {
                Some(owner) => {
                    let count = match sizes.get(owner.0) {
                        Some(count) => count,
                        None => 0,
                    };
                    proof {
                        assert(count == count_in(sizes@, owner.0));
                        hand_count_is_bounded(world.entities@, owner.0, id as int);
                    }
                    let ghost before = sizes@;
                    sizes.insert(owner.0, count + 1);
                    assert forall|player: Entity| #[trigger]
                        count_in(sizes@, player) == hand_count(
                            world.entities@,
                            player,
                            id + 1,
                        ) by {
                        assert(count_in(before, player) == hand_count(
                            world.entities@,
                            player,
                            id as int,
                        ));
                    }
                },
                None => {
                    assert forall|player: Entity| #[trigger]
                        count_in(sizes@, player) == hand_count(
                            world.entities@,
                            player,
                            id + 1,
                        ) by {
                        assert(count_in(sizes@, player) == hand_count(
                            world.entities@,
                            player,
                            id as int,
                        ));
                    }
                },
            }
        } else {
            assert forall|player: Entity| #[trigger]
                count_in(sizes@, player) == hand_count(world.entities@, player, id + 1) by {
                assert(count_in(sizes@, player) == hand_count(
                    world.entities@,
                    player,
                    id as int,
                ));
            }
        }
        id += 1;
    }
    sizes
}

proof fn top_of_order_is_dealt_from_top(
    entities: Seq<EntityData>,
    cards: Set<Entity>,
    players: Seq<Entity>,
    order: Seq<(Entity, usize)>,
    dealt: Seq<(Entity, Entity)>,
)
    requires
        orders_pile(order, entities, cards, Pile::Undealt),
        dealt.len() <= players.len(),
        dealt.len() <= order.len(),
        dealt.len() == players.len() || dealt.len() == order.len(),
        forall|k: int|
            0 <= k < dealt.len() ==> #[trigger] dealt[k] == (
                players[k],
                order[order.len() - 1 - k].0,
            ),
    ensures
        deals_from_top(entities, cards, players, dealt),
{
    let total = order.len() as int;
    assert forall|k: int| 0 <= k < dealt.len() implies in_pile(
        entities,
        cards,
        Pile::Undealt,
        (#[trigger] dealt[k]).1,
    ) by {
        let item = order[total - 1 - k];
        assert(in_pile(entities, cards, Pile::Undealt, item.0));
    }
    assert forall|i: int, j: int| 0 <= i < j < dealt.len() implies {
        &&& dealt[i].1 != dealt[j].1
        &&& Pile::Undealt.index(entities[dealt[i].1 as int]) >= Pile::Undealt.index(
            entities[dealt[j].1 as int],
        )
    } by {
        let upper = order[total - 1 - i];
        let lower = order[total - 1 - j];
        assert(dealt[i].1 == upper.0);
        assert(dealt[j].1 == lower.0);
        assert(lower.1 <= upper.1);
    }
    assert forall|id: Entity| #[trigger]
        in_pile(entities, cards, Pile::Undealt, id) && !deals_card(dealt, id) implies exists|
        q: int,
    |
        0 <= q < total - dealt.len() && (#[trigger] order[q]).0 == id by {
        assert(lists(order, id));
        let q = choose|q: int| 0 <= q < order.len() && (#[trigger] order[q]).0 == id;
        if q >= total - dealt.len() {
            let k = total - 1 - q;
            assert(dealt[k].1 == id);
        }
    }
    assert forall|id: Entity, k: int|
        0 <= k < dealt.len() && #[trigger] in_pile(entities, cards, Pile::Undealt, id)
            && !deals_card(dealt, id) implies Pile::Undealt.index(entities[id as int])
        <= Pile::Undealt.index(entities[(#[trigger] dealt[k]).1 as int]) by {
        let q = choose|q: int| 0 <= q < total - dealt.len() && (#[trigger] order[q]).0 == id;
        let low = order[q];
        let high = order[total - 1 - k];
        assert(low.1 <= high.1);
        assert(dealt[k].1 == high.0);
    }
}

/// The cards that are not dealt stay as they were, and each dealt card is
/// changed once.
pub proof fn deals_touch_only_dealt_cards(
    entities: Seq<EntityData>,
    dealt: Seq<(Entity, Entity)>,
    k: int,
)
    requires
        0 <= k <= dealt.len(),
        forall|j: int| 0 <= j < dealt.len() ==> (#[trigger] dealt[j]).1 < entities.len(),
        forall|i: int, j: int| 0 <= i < j < dealt.len() ==> dealt[i].1 != dealt[j].1,
    ensures
        after_deals(entities, dealt, k).len() == entities.len(),
        forall|id: int|
            0 <= id < entities.len() && (forall|j: int|
                0 <= j < k ==> (#[trigger] dealt[j]).1 != id) ==> #[trigger] after_deals(
                entities,
                dealt,
                k,
            )[id] == entities[id],
        forall|j: int|
            0 <= j < k ==> after_deals(entities, dealt, k)[(#[trigger] dealt[j]).1 as int]
                == dealt_to(
                entities[dealt[j].1 as int],
                dealt[j].0,
                index_of_deal(entities, dealt, j) as usize,
            ),
    decreases k,
{
    if k > 0 {
        deals_touch_only_dealt_cards(entities, dealt, k - 1);
        let earlier = after_deals(entities, dealt, k - 1);
        let last = dealt[k - 1];
        assert(earlier[last.1 as int] == entities[last.1 as int]);
        assert forall|j: int| 0 <= j < k implies after_deals(entities, dealt, k)[(
        #[trigger] dealt[j]).1 as int] == dealt_to(
            entities[dealt[j].1 as int],
            dealt[j].0,
            index_of_deal(entities, dealt, j) as usize,
        ) by {
            if j < k - 1 {
                assert(dealt[j].1 != dealt[k - 1].1);
            }
        }
    }
}

/// Deals one card from the top of the session's deck to each listed player, in
/// list order, for as long as undealt cards are left. The top is the card of
/// highest index in the deck; the deck is ordered once for the request. A card
/// joins the right end of the hand: its index is the size that the hand had
/// before the request, and one more for each card that the request gave the
/// player before it.
pub fn deal_cards(world: &mut World, event: &DealCardsEvent) -> (report: DealReport)
    requires
        old(world).wf(),
    ensures
        answers_request(old(world).entities@, event.session_id, event.player_ids@, report),
        final(world).entities@ == after_deals(
            old(world).entities@,
            report.dealt@,
            report.dealt@.len() as int,
        ),
        final(world).wf(),
        old(world).placements_exclusive() ==> final(world).placements_exclusive(),
        old(world).cards_in_play() ==> final(world).cards_in_play(),
{
    let session_id = event.session_id;
    let size = world.entities.len();
    if session_id >= size {
        return DealReport {
            session_id,
            session_found: false,
            dealt: Vec::new(),
            missing: event.player_ids.len(),
        };
    }
    let order = match &world.entities[session_id].session {
        Some(session) => sorted_pile(world, &session.card_ids, Pile::Undealt),
        None => {
            return DealReport {
                session_id,
                session_found: false,
                dealt: Vec::new(),
                missing: event.player_ids.len(),
            };
        },
    };
    let ghost before = world.entities@;
    let ghost cards = before[session_id as int].session->0.card_ids@;
    let ghost players = event.player_ids@;
    let mut sizes = hand_sizes(world);
    let total = order.len();
    proof {
        let ids = Seq::new(order@.len(), |i: int| order@[i].0);
        assert forall|i: int| 0 <= i < ids.len() implies #[trigger] ids[i] < size by {
            assert(in_pile(world.entities@, cards, Pile::Undealt, order@[i].0));
        }
        distinct_ids_are_few(ids, size as nat);
    }
    let mut dealt: Vec<(Entity, Entity)> = Vec::new();
    let mut k: usize = 0;
    while k < event.player_ids.len() && k < total
        invariant
            k <= players.len(),
            k <= total,
            total == order@.len(),
            total <= size,
            size == before.len(),
            size <= MAX_ENTITIES,
            players == event.player_ids@,
            before == old(world).entities@,
            orders_pile(order@, before, cards, Pile::Undealt),
            dealt@.len() == k,
            forall|j: int|
                0 <= j < k ==> #[trigger] dealt@[j] == (players[j], order@[total - 1 - j].0),
            world.entities@ == after_deals(before, dealt@, k as int),
            world.entities@.len() == size,
            forall|player: Entity| #[trigger]
                count_in(sizes@, player) == hand_count(before, player, size as int) + deals_before(
                    dealt@,
                    k as int,
                    player,
                ),
        decreases total - k,
    {
        let player = event.player_ids[k];
        let card = order[total - 1 - k].0;
        let count = match sizes.get(player) {
            Some(count) => count,
            None => 0,
        };
        let ghost earlier = dealt@;
        let ghost sizes_before = sizes@;
        proof {
            assert(count == count_in(sizes@, player));
            hand_count_is_bounded(before, player, size as int);
            deals_before_reads_a_prefix(earlier, earlier, k as int, player);
            assert(in_pile(before, cards, Pile::Undealt, order@[total - 1 - k].0));
        }
        let index = count as usize;
        world.entities[card].in_deck = None;
        world.entities[card].belongs_to_player = Some(BelongsToPlayer(player));
        world.entities[card].in_hand = Some(InHand { index_from_left: index });
        world.entities[card].sleeping = None;
        sizes.insert(player, count + 1);
        dealt.push((player, card));
        proof {
            after_deals_reads_a_prefix(before, earlier, dealt@, k as int);
            deals_before_reads_a_prefix(earlier, dealt@, k as int, player);
            assert(index_of_deal(before, dealt@, k as int) == count);
            assert(world.entities@ =~= after_deals(before, dealt@, k + 1));
            assert forall|other: Entity| #[trigger]
                count_in(sizes@, other) == hand_count(before, other, size as int) + deals_before(
                    dealt@,
                    k + 1,
                    other,
                ) by {
                deals_before_reads_a_prefix(earlier, dealt@, k as int, other);
                assert(count_in(sizes_before, other) == hand_count(before, other, size as int)
                    + deals_before(earlier, k as int, other));
            }
        }
        k += 1;
    }
    proof {
        top_of_order_is_dealt_from_top(before, cards, players, order@, dealt@);
        assert forall|j: int| 0 <= j < dealt@.len() implies (#[trigger] dealt@[j]).1
            < before.len() by {
            assert(in_pile(before, cards, Pile::Undealt, order@[total - 1 - j].0));
        }
        deals_touch_only_dealt_cards(before, dealt@, k as int);
        if exclusive(before) {
            dealing_keeps_placements_exclusive(before, cards, players, dealt@);
        }
    }
    DealReport { session_id, session_found: true, dealt, missing: event.player_ids.len() - k }
}

/// The entities after the requests of the first `k` reports were served, one
/// after the other.
pub open spec fn after_requests(entities: Seq<EntityData>, reports: Seq<DealReport>, k: int)
    -> Seq<EntityData>
    decreases k,
{
    if k <= 0 {
        entities
    } else {
        after_deals(
            after_requests(entities, reports, k - 1),
            reports[k - 1].dealt@,
            reports[k - 1].dealt@.len() as int,
        )
    }
}

proof fn after_requests_reads_a_prefix(
    entities: Seq<EntityData>,
    shorter: Seq<DealReport>,
    longer: Seq<DealReport>,
    k: int,
)
    requires
        k <= shorter.len() <= longer.len(),
        forall|j: int| 0 <= j < shorter.len() ==> shorter[j] == longer[j],
    ensures
        after_requests(entities, shorter, k) == after_requests(entities, longer, k),
    decreases k,
{
    if k > 0 {
        after_requests_reads_a_prefix(entities, shorter, longer, k - 1);
    }
}

/// Serves the deal requests in the order in which they come. Each report tells
/// what its request led to on the entities as the requests before it left them.
pub fn handle_deal_cards_events(world: &mut World, events: &Vec<DealCardsEvent>) -> (reports: Vec<
    DealReport,
>)
    requires
        old(world).wf(),
    ensures
        reports@.len() == events@.len(),
        forall|k: int|
            0 <= k < reports@.len() ==> answers_request(
                after_requests(old(world).entities@, reports@, k),
                events@[k].session_id,
                events@[k].player_ids@,
                #[trigger] reports@[k],
            ),
        final(world).entities@ == after_requests(
            old(world).entities@,
            reports@,
            reports@.len() as int,
        ),
        final(world).wf(),
        old(world).placements_exclusive() ==> final(world).placements_exclusive(),
        old(world).cards_in_play() ==> final(world).cards_in_play(),
{
    let ghost before = world.entities@;
    let mut reports: Vec<DealReport> = Vec::new();
    let mut k: usize = 0;
    while k < events.len()
        invariant
            k <= events@.len(),
            reports@.len() == k,
            world.wf(),
            before == old(world).entities@,
            world.entities@ == after_requests(before, reports@, k as int),
            old(world).placements_exclusive() ==> world.placements_exclusive(),
            old(world).cards_in_play() ==> world.cards_in_play(),
            forall|j: int|
                0 <= j < k ==> answers_request(
                    after_requests(before, reports@, j),
                    events@[j].session_id,
                    events@[j].player_ids@,
                    #[trigger] reports@[j],
                ),
        decreases events@.len() - k,
    {
        let ghost earlier = reports@;
        let report = deal_cards(world, &events[k]);
        reports.push(report);
        proof {
            assert forall|j: int| 0 <= j <= k implies after_requests(before, reports@, j)
                == after_requests(before, earlier, j) by {
                after_requests_reads_a_prefix(before, earlier, reports@, j);
            }
            assert(reports@[k as int] == report);
            assert(after_requests(before, reports@, k + 1) == after_deals(
                after_requests(before, reports@, k as int),
                reports@[k as int].dealt@,
                reports@[k as int].dealt@.len() as int,
            ));
        }
        k += 1;
    }
    reports
}

/// Changing one entity changes the size of a hand by what that entity counts for.
pub proof fn hand_count_after_update(
    entities: Seq<EntityData>,
    id: int,
    data: EntityData,
    player: Entity,
    n: int,
)
    requires
        0 <= id < entities.len(),
        0 <= n <= entities.len(),
    ensures
        hand_count(entities.update(id, data), player, n) + (if id < n
            && entities[id].is_hand_card_of(player) {
            1nat
        } else {
            0nat
        }) == hand_count(entities, player, n) + (if id < n && data.is_hand_card_of(player) {
            1nat
        } else {
            0nat
        }),
    decreases n,
{
    if n > 0 {
        hand_count_after_update(entities, id, data, player, n - 1);
    }
}

/// Dealing appends to hands. Where no dealt card was in a hand before, every
/// hand grows by the number of cards dealt to its player, and each dealt card
/// stands at the index that was the size of the hand when it came: the indices
/// given to one player form a run without gaps that starts at the size that the
/// hand had.
pub proof fn dealing_appends_to_hands(
    entities: Seq<EntityData>,
    dealt: Seq<(Entity, Entity)>,
    k: int,
    player: Entity,
)
    requires
        0 <= k <= dealt.len(),
        forall|j: int| 0 <= j < dealt.len() ==> (#[trigger] dealt[j]).1 < entities.len(),
        forall|i: int, j: int| 0 <= i < j < dealt.len() ==> dealt[i].1 != dealt[j].1,
        forall|j: int|
            0 <= j < dealt.len() ==> {
                let data = entities[(#[trigger] dealt[j]).1 as int];
                data.card is Some && data.in_hand is None
            },
        entities.len() <= MAX_ENTITIES,
    ensures
        hand_count(after_deals(entities, dealt, k), player, entities.len() as int) == hand_count(
            entities,
            player,
            entities.len() as int,
        ) + deals_before(dealt, k, player),
        k < dealt.len() && dealt[k].0 == player ==> after_deals(
            entities,
            dealt,
            dealt.len() as int,
        )[dealt[k].1 as int].in_hand == Some(
            InHand {
                index_from_left: hand_count(
                    after_deals(entities, dealt, k),
                    player,
                    entities.len() as int,
                ) as usize,
            },
        ),
    decreases k,
{
    let size = entities.len() as int;
    deals_touch_only_dealt_cards(entities, dealt, k);
    deals_touch_only_dealt_cards(entities, dealt, dealt.len() as int);
    if k > 0 {
        dealing_appends_to_hands(entities, dealt, k - 1, player);
        deals_touch_only_dealt_cards(entities, dealt, k - 1);
        let earlier = after_deals(entities, dealt, k - 1);
        let last = dealt[k - 1];
        let card = last.1 as int;
        assert(earlier[card] == entities[card]);
        let next = dealt_to(
            earlier[card],
            last.0,
            index_of_deal(entities, dealt, k - 1) as usize,
        );
        hand_count_after_update(earlier, card, next, player, size);
    }
}

/// Dealing to players that are all different gives each of them exactly one
/// card, at the index that was the size of the player's hand.
pub proof fn dealing_to_distinct_players(
    entities: Seq<EntityData>,
    dealt: Seq<(Entity, Entity)>,
    k: int,
)
    requires
        0 <= k < dealt.len(),
        forall|j: int| 0 <= j < dealt.len() ==> (#[trigger] dealt[j]).1 < entities.len(),
        forall|i: int, j: int| 0 <= i < j < dealt.len() ==> dealt[i].1 != dealt[j].1,
        forall|i: int, j: int| 0 <= i < j < dealt.len() ==> dealt[i].0 != dealt[j].0,
        forall|j: int|
            0 <= j < dealt.len() ==> {
                let data = entities[(#[trigger] dealt[j]).1 as int];
                data.card is Some && data.in_hand is None
            },
        entities.len() <= MAX_ENTITIES,
    ensures
        ({
            let size = entities.len() as int;
            let after = after_deals(entities, dealt, dealt.len() as int);
            &&& hand_count(after, dealt[k].0, size) == hand_count(entities, dealt[k].0, size) + 1
            &&& after[dealt[k].1 as int].in_hand == Some(
                InHand { index_from_left: hand_count(entities, dealt[k].0, size) as usize },
            )
            &&& after[dealt[k].1 as int].belongs_to_player == Some(BelongsToPlayer(dealt[k].0))
        }),
{
    let player = dealt[k].0;
    dealing_appends_to_hands(entities, dealt, dealt.len() as int, player);
    dealing_appends_to_hands(entities, dealt, k, player);
    deals_touch_only_dealt_cards(entities, dealt, dealt.len() as int);
    one_deal_among_distinct_players(dealt, k, k);
    one_deal_among_distinct_players(dealt, k, dealt.len() as int);
}

proof fn one_deal_among_distinct_players(dealt: Seq<(Entity, Entity)>, k: int, n: int)
    requires
        0 <= k < dealt.len(),
        0 <= n <= dealt.len(),
        forall|i: int, j: int| 0 <= i < j < dealt.len() ==> dealt[i].0 != dealt[j].0,
    ensures
        deals_before(dealt, n, dealt[k].0) == (if k < n {
            1nat
        } else {
            0nat
        }),
    decreases n,
{
    if n > 0 {
        one_deal_among_distinct_players(dealt, k, n - 1);
    }
}

/// Dealing keeps the placement flags exclusive: a dealt card leaves the deck as
/// it enters a hand.
pub proof fn dealing_keeps_placements_exclusive(
    entities: Seq<EntityData>,
    cards: Set<Entity>,
    players: Seq<Entity>,
    dealt: Seq<(Entity, Entity)>,
)
    requires
        deals_from_top(entities, cards, players, dealt),
        exclusive(entities),
    ensures
        exclusive(after_deals(entities, dealt, dealt.len() as int)),
{
    assert forall|j: int| 0 <= j < dealt.len() implies (#[trigger] dealt[j]).1
        < entities.len() by {
        assert(in_pile(entities, cards, Pile::Undealt, dealt[j].1));
    }
    deals_touch_only_dealt_cards(entities, dealt, dealt.len() as int);
    let after = after_deals(entities, dealt, dealt.len() as int);
    assert forall|id: int| 0 <= id < entities.len() implies (#[trigger] after[id]).placements()
        <= 1 by {
        if deals_card(dealt, id as Entity) {
            let j = choose|j: int| 0 <= j < dealt.len() && (#[trigger] dealt[j]).1 == id as Entity;
            assert(in_pile(entities, cards, Pile::Undealt, dealt[j].1));
            assert(entities[id].placements() <= 1);
            assert(after[dealt[j].1 as int] == dealt_to(
                entities[dealt[j].1 as int],
                dealt[j].0,
                index_of_deal(entities, dealt, j) as usize,
            ));
        } else {
            assert forall|j: int| 0 <= j < dealt.len() implies (#[trigger] dealt[j]).1 != id by {
                if dealt[j].1 == id {
                    assert(deals_card(dealt, id as Entity));
                }
            }
        }
    }
}

/// Whether an undealt card of `cards` has this index in the deck.
pub open spec fn deck_has_index(entities: Seq<EntityData>, cards: Set<Entity>, index: int) -> bool {
    exists|id: Entity| #[trigger]
        in_pile(entities, cards, Pile::Undealt, id) && Pile::Undealt.index(entities[id as int])
            == index
}

/// Whether the undealt cards of `cards` carry the indices from 0 up to, but not
/// including, `height`, each index once.
pub open spec fn deck_is_dense(entities: Seq<EntityData>, cards: Set<Entity>, height: int) -> bool {
    &&& forall|id: Entity| #[trigger]
        in_pile(entities, cards, Pile::Undealt, id) ==> Pile::Undealt.index(entities[id as int])
            < height
    &&& forall|a: Entity, b: Entity|
        #![trigger in_pile(entities, cards, Pile::Undealt, a), in_pile(entities, cards, Pile::Undealt, b)]
        in_pile(entities, cards, Pile::Undealt, a) && in_pile(entities, cards, Pile::Undealt, b)
            && a != b ==> Pile::Undealt.index(entities[a as int]) != Pile::Undealt.index(
            entities[b as int],
        )
    &&& forall|index: int| 0 <= index < height ==> #[trigger] deck_has_index(entities, cards, index)
}

/// From a deck whose cards carry the indices 0 up to `height`, each once, the
/// deal number `k` takes the card of index `height - 1 - k`: the topmost card is
/// always the highest index less the number of cards already dealt.
pub proof fn deals_take_the_highest_index(
    entities: Seq<EntityData>,
    cards: Set<Entity>,
    players: Seq<Entity>,
    dealt: Seq<(Entity, Entity)>,
    height: int,
    k: int,
)
    requires
        deals_from_top(entities, cards, players, dealt),
        deck_is_dense(entities, cards, height),
        0 <= k < dealt.len(),
    ensures
        Pile::Undealt.index(entities[dealt[k].1 as int]) == height - 1 - k,
    decreases k,
{
    let pile = Pile::Undealt;
    let this = dealt[k].1;
    assert(in_pile(entities, cards, pile, dealt[k].1));
    if k > 0 {
        deals_take_the_highest_index(entities, cards, players, dealt, height, k - 1);
        let above = dealt[k - 1].1;
        assert(in_pile(entities, cards, pile, dealt[k - 1].1));
        assert(above != this);
        assert(pile.index(entities[above as int]) >= pile.index(entities[this as int]));
    }
    assert(pile.index(entities[this as int]) <= height - 1 - k);
    let wanted = height - 1 - k;
    assert(deck_has_index(entities, cards, wanted));
    let other = choose|id: Entity| #[trigger]
        in_pile(entities, cards, pile, id) && pile.index(entities[id as int]) == wanted;
    if deals_card(dealt, other) {
        let j = choose|j: int| 0 <= j < dealt.len() && (#[trigger] dealt[j]).1 == other;
        if j < k {
            if j < k - 1 {
                assert(pile.index(entities[dealt[j].1 as int]) >= pile.index(
                    entities[dealt[k - 1].1 as int],
                ));
            }
        } else if j > k {
            assert(pile.index(entities[dealt[k].1 as int]) >= pile.index(
                entities[dealt[j].1 as int],
            ));
        }
    } else {
        assert(pile.index(entities[other as int]) <= pile.index(entities[dealt[k].1 as int]));
    }
}

/// Dealing leaves the cards that stay in the deck as they were, so that their
/// indices, and with them their order, are the same after the deal.
pub proof fn dealing_keeps_the_rest_of_the_deck(
    entities: Seq<EntityData>,
    cards: Set<Entity>,
    players: Seq<Entity>,
    dealt: Seq<(Entity, Entity)>,
    id: Entity,
)
    requires
        deals_from_top(entities, cards, players, dealt),
        id < entities.len(),
        !deals_card(dealt, id),
    ensures
        after_deals(entities, dealt, dealt.len() as int)[id as int] == entities[id as int],
        after_deals(entities, dealt, dealt.len() as int).len() == entities.len(),
{
    assert forall|j: int| 0 <= j < dealt.len() implies (#[trigger] dealt[j]).1
        < entities.len() by {
        assert(in_pile(entities, cards, Pile::Undealt, dealt[j].1));
    }
    deals_touch_only_dealt_cards(entities, dealt, dealt.len() as int);
    assert forall|j: int| 0 <= j < dealt.len() implies (#[trigger] dealt[j]).1 != id by {
        if dealt[j].1 == id {
            assert(deals_card(dealt, id));
        }
    }
}

} // verus!
