//! The two pose rules, stacking the deck and fanning a hand. They decide which
//! cards move in a tick, towards which target and how far; the arithmetic on
//! poses is left to the presentation.
use crate::components::{CardPositioningBehaviour, Sleeping, TravelTime};
use crate::ids::{ascending, Entity};
use crate::motion::{advance, eases, elapsed, SETTLING_TIME};
use crate::select::{in_pile, lists, orders_pile, sorted_pile, Pile};
use crate::world::{exclusive, EntityData, World};
use vstd::prelude::*;

verus! {

/// Where a card is to go. A target that names an anchor card is relative to the
/// pose that the anchor has before the updates of the tick are applied.
#[derive(Debug, Eq, PartialEq, Clone, Copy, Structural)]
pub enum PoseTarget {
    /// Flat on the surface of the table.
    TableSurface { table_id: Entity },
    /// Above the anchor by `steps` stacking steps, turned as the anchor is.
    StackedOn { anchor_id: Entity, steps: usize },
    /// In front of the player, tilted up from the way the player faces.
    InFrontOf { player_id: Entity },
    /// Beside the anchor by `steps` fanning steps along the anchor's lateral
    /// axis, turned as the anchor is.
    FannedFrom { anchor_id: Entity, steps: usize },
}

/// The height of one stacking step, in thousandths of the unit of length.
pub const STACK_STEP: u64 = 10;

/// The width of one fanning step, in thousandths of the unit of length.
pub const FAN_STEP: u64 = 100;

/// How far in front of a player the first card of the hand is held, in
/// thousandths of the unit of length.
pub const HAND_REACH: u64 = 500;

impl PoseTarget {
    /// How far the target lies from what it is counted from, in thousandths of
    /// the unit of length: upwards from the anchor of a stack, sideways from the
    /// anchor of a fan, forwards from a player. A card on the table lies on it.
    pub open spec fn spec_distance(self) -> nat {
        match self {
            PoseTarget::TableSurface { table_id } => 0,
            PoseTarget::StackedOn { anchor_id, steps } => steps as nat * STACK_STEP as nat,
            PoseTarget::InFrontOf { player_id } => HAND_REACH as nat,
            PoseTarget::FannedFrom { anchor_id, steps } => steps as nat * FAN_STEP as nat,
        }
    }

    /// The distance of the target, in thousandths of the unit of length.
    pub fn distance(&self) -> (distance: u128)
        ensures
            distance == self.spec_distance(),
    {
        match self {
            PoseTarget::TableSurface { table_id } => 0,
            PoseTarget::StackedOn { anchor_id, steps } => {
                assert(*steps as nat * STACK_STEP as nat <= u128::MAX) by (nonlinear_arith)
                    requires
                        *steps <= u64::MAX,
                        STACK_STEP == 10,
                ;
                *steps as u128 * STACK_STEP as u128
            },
            PoseTarget::InFrontOf { player_id } => HAND_REACH as u128,
            PoseTarget::FannedFrom { anchor_id, steps } => {
                assert(*steps as nat * FAN_STEP as nat <= u128::MAX) by (nonlinear_arith)
                    requires
                        *steps <= u64::MAX,
                        FAN_STEP == 100,
                ;
                *steps as u128 * FAN_STEP as u128
            },
        }
    }
}

/// One card's move in a tick: interpolate from the current pose towards the
/// target by `progress` millionths.
#[derive(Debug, Eq, PartialEq, Clone, Copy, Structural)]
pub struct PoseUpdate {
    pub card_id: Entity,
    pub target: PoseTarget,
    pub progress: u64,
}

/// What one pose rule did to one pile in a tick.
pub struct PilePositioning {
    /// The session whose pile it is.
    pub session_id: Entity,
    /// The pile.
    pub pile: Pile,
    /// The card of lowest index, from which the others are placed; none if the
    /// pile is empty.
    pub anchor: Option<Entity>,
    /// The target of the anchor itself; none if what it rests on is missing.
    pub anchor_target: Option<PoseTarget>,
    /// The moves, by rising index in the pile.
    pub updates: Vec<PoseUpdate>,
}

impl Pile {
    /// The behaviour of the cards that the rule for this pile moves.
    pub open spec fn behaviour(self) -> CardPositioningBehaviour {
        match self {
            Pile::Fan { player_id } => CardPositioningBehaviour::InHand,
            _ => CardPositioningBehaviour::InDeck,
        }
    }

    /// The target of a card of this pile that is not the anchor.
    pub open spec fn target_from(self, anchor_id: Entity, steps: usize) -> PoseTarget {
        match self {
            Pile::Fan { player_id } => PoseTarget::FannedFrom { anchor_id, steps },
            _ => PoseTarget::StackedOn { anchor_id, steps },
        }
    }

    fn moving_behaviour(&self) -> (behaviour: CardPositioningBehaviour)
        ensures
            behaviour == self.behaviour(),
    {
        match self {
            Pile::Fan { player_id } => CardPositioningBehaviour::InHand,
            _ => CardPositioningBehaviour::InDeck,
        }
    }

    fn relative_target(&self, anchor_id: Entity, steps: usize) -> (target: PoseTarget)
        ensures
            target == self.target_from(anchor_id, steps),
    {
        match self {
            Pile::Fan { player_id } => PoseTarget::FannedFrom { anchor_id, steps },
            _ => PoseTarget::StackedOn { anchor_id, steps },
        }
    }
}

/// Whether the rule for the pile may move this entity: it is not resting and
/// its behaviour is the one that the rule serves.
pub open spec fn awake_in(pile: Pile, data: EntityData) -> bool {
    data.sleeping is None && data.behaviour == Some(pile.behaviour())
}

/// When the travel of an entity started, if it is moved now.
pub open spec fn start_of(data: EntityData, now: u64) -> u64 {
    match data.travel_time {
        Some(travel) => travel.start_time,
        None => now,
    }
}

/// An entity after it was moved at `now`: its travel is under way, or, once it
/// has lasted `SETTLING_TIME`, it is over and the entity rests.
pub open spec fn moved(data: EntityData, now: u64) -> EntityData {
    if elapsed(start_of(data, now), now) >= SETTLING_TIME {
        EntityData { travel_time: None, sleeping: Some(Sleeping { start_time: now }), ..data }
    } else {
        EntityData { travel_time: Some(TravelTime { start_time: start_of(data, now) }), ..data }
    }
}

/// Whether `updates` has a move for `id`.
pub open spec fn moves(updates: Seq<PoseUpdate>, id: Entity) -> bool {
    exists|i: int| 0 <= i < updates.len() && (#[trigger] updates[i]).card_id == id
}

/// The entities after the moves in `updates` were made at `now`.
pub open spec fn after_moves(entities: Seq<EntityData>, updates: Seq<PoseUpdate>, now: u64) -> Seq<
    EntityData,
> {
    Seq::new(
        entities.len(),
        |id: int|
            if moves(updates, id as Entity) {
                moved(entities[id], now)
            } else {
                entities[id]
            },
    )
}

/// Whether the rule for the pile moves the card `id` in this tick: the card lies
/// in the pile and is awake, and if it is the anchor, its target is there.
pub open spec fn is_positioned(
    entities: Seq<EntityData>,
    cards: Set<Entity>,
    pile: Pile,
    anchor: Option<Entity>,
    anchor_target: Option<PoseTarget>,
    id: Entity,
) -> bool {
    &&& in_pile(entities, cards, pile, id)
    &&& awake_in(pile, entities[id as int])
    &&& anchor == Some(id) ==> anchor_target is Some
}

/// Whether `updates` are the moves that the rule for the pile makes at `now`:
/// one for each card that it positions, by rising index, each towards the
/// anchor's own target or a place counted from the anchor, and with the eased
/// progress of its travel.
pub open spec fn positions_pile(
    entities: Seq<EntityData>,
    cards: Set<Entity>,
    pile: Pile,
    anchor: Option<Entity>,
    anchor_target: Option<PoseTarget>,
    now: u64,
    updates: Seq<PoseUpdate>,
) -> bool {
    &&& forall|i: int, j: int|
        0 <= i < j < updates.len() ==> {
            &&& updates[i].card_id != updates[j].card_id
            &&& pile.index(entities[updates[i].card_id as int]) <= pile.index(
                entities[updates[j].card_id as int],
            )
        }
    &&& forall|i: int|
        0 <= i < updates.len() ==> {
            let update = #[trigger] updates[i];
            let data = entities[update.card_id as int];
            &&& is_positioned(entities, cards, pile, anchor, anchor_target, update.card_id)
            &&& update.target == (if anchor == Some(update.card_id) {
                anchor_target->0
            } else {
                pile.target_from(anchor->0, pile.index(data))
            })
            &&& eases(elapsed(start_of(data, now), now), update.progress as nat)
        }
    &&& forall|id: Entity| #[trigger]
        is_positioned(entities, cards, pile, anchor, anchor_target, id) ==> moves(updates, id)
}

/// Whether `anchor` is the card of lowest index in the pile, or none where the
/// pile is empty. Among cards that share the lowest index any may be the anchor.
pub open spec fn anchors_pile(
    entities: Seq<EntityData>,
    cards: Set<Entity>,
    pile: Pile,
    anchor: Option<Entity>,
) -> bool {
    match anchor {
        Some(anchor_id) => {
            &&& in_pile(entities, cards, pile, anchor_id)
            &&& forall|id: Entity| #[trigger]
                in_pile(entities, cards, pile, id) ==> pile.index(entities[anchor_id as int])
                    <= pile.index(entities[id as int])
        },
        None => forall|id: Entity| !#[trigger] in_pile(entities, cards, pile, id),
    }
}

proof fn moves_after_push(updates: Seq<PoseUpdate>, update: PoseUpdate)
    ensures
        moves(updates.push(update), update.card_id),
        forall|id: Entity| #[trigger] moves(updates, id) ==> moves(updates.push(update), id),
        forall|id: Entity|
            id != update.card_id && #[trigger] moves(updates.push(update), id) ==> moves(
                updates,
                id,
            ),
{
    assert(updates.push(update)[updates.len() as int].card_id == update.card_id);
    assert forall|id: Entity| #[trigger] moves(updates, id) implies moves(
        updates.push(update),
        id,
    ) by {
        let i = choose|i: int| 0 <= i < updates.len() && (#[trigger] updates[i]).card_id == id;
        assert(updates.push(update)[i].card_id == id);
    }
    assert forall|id: Entity|
        id != update.card_id && #[trigger] moves(updates.push(update), id) implies moves(
        updates,
        id,
    ) by {
        let i = choose|i: int|
            0 <= i < updates.push(update).len() && (#[trigger] updates.push(update)[i]).card_id
                == id;
        assert(updates[i].card_id == id);
    }
}

/// Moves the cards of a pile that is given in its order. The first card of the
/// order is the anchor.
fn position_in_order(
    world: &mut World,
    order: &Vec<(Entity, usize)>,
    pile: Pile,
    anchor_target: Option<PoseTarget>,
    now: u64,
    Ghost(cards): Ghost<Set<Entity>>,
) -> (updates: Vec<PoseUpdate>)
    requires
        order@.len() > 0,
        orders_pile(order@, old(world).entities@, cards, pile),
    ensures
        positions_pile(
            old(world).entities@,
            cards,
            pile,
            Some(order@[0].0),
            anchor_target,
            now,
            updates@,
        ),
        final(world).entities@ == after_moves(old(world).entities@, updates@, now),
{
    let ghost before = world.entities@;
    let ghost anchor = Some(order@[0].0);
    let size = world.entities.len();
    let anchor_id = order[0].0;
    let behaviour = pile.moving_behaviour();
    let mut updates: Vec<PoseUpdate> = Vec::new();
    let ghost mut place: Seq<int> = Seq::empty();
    let mut k: usize = 0;
    while k < order.len()
        invariant
            k <= order@.len(),
            order@.len() > 0,
            anchor_id == order@[0].0,
            anchor == Some(anchor_id),
            behaviour == pile.behaviour(),
            before == old(world).entities@,
            before.len() == size,
            orders_pile(order@, before, cards, pile),
            world.entities@.len() == before.len(),
            forall|id: Entity|
                id < before.len() ==> #[trigger] world.entities@[id as int] == (if moves(
                    updates@,
                    id,
                ) {
                    moved(before[id as int], now)
                } else {
                    before[id as int]
                }),
            place.len() == updates@.len(),
            forall|i: int|
                0 <= i < updates@.len() ==> 0 <= #[trigger] place[i] < k && updates@[i].card_id
                    == order@[place[i]].0,
            forall|i: int, j: int| 0 <= i < j < updates@.len() ==> place[i] < place[j],
            forall|i: int|
                0 <= i < updates@.len() ==> {
                    let update = #[trigger] updates@[i];
                    let data = before[update.card_id as int];
                    &&& is_positioned(before, cards, pile, anchor, anchor_target, update.card_id)
                    &&& update.target == (if anchor == Some(update.card_id) {
                        anchor_target->0
                    } else {
                        pile.target_from(anchor->0, pile.index(data))
                    })
                    &&& eases(elapsed(start_of(data, now), now), update.progress as nat)
                },
            forall|j: int|
                0 <= j < k && is_positioned(
                    before,
                    cards,
                    pile,
                    anchor,
                    anchor_target,
                    (#[trigger] order@[j]).0,
                ) ==> moves(updates@, order@[j].0),
        decreases order@.len() - k,
    {
        let card_id = order[k].0;
        let index = order[k].1;
        proof {
            assert(in_pile(before, cards, pile, order@[k as int].0));
            if moves(updates@, card_id) {
                let i = choose|i: int|
                    0 <= i < updates@.len() && (#[trigger] updates@[i]).card_id == card_id;
                assert(place[i] < k);
                assert(order@[place[i]].0 != order@[k as int].0);
            }
            assert(world.entities@[card_id as int] == before[card_id as int]);
        }
        let awake = world.entities[card_id].sleeping.is_none() && world.entities[card_id].behaviour
            == Some(behaviour);
        let target = if card_id == anchor_id {
            anchor_target
        } else {
            Some(pile.relative_target(anchor_id, index))
        };
        if awake {
            match target {
                Some(target) => {
                    let motion = advance(world.entities[card_id].travel_time, now);
                    let ghost entities_before = world.entities@;
                    if motion.settled {
                        world.entities[card_id].travel_time = None;
                        world.entities[card_id].sleeping = Some(Sleeping { start_time: now });
                    } else {
                        world.entities[card_id].travel_time = Some(
                            TravelTime { start_time: motion.start_time },
                        );
                    }
                    let update = PoseUpdate { card_id, target, progress: motion.progress };
                    proof {
                        moves_after_push(updates@, update);
                        place = place.push(k as int);
                        assert(world.entities@[card_id as int] == moved(
                            before[card_id as int],
                            now,
                        ));
                        assert forall|id: Entity|
                            id < before.len() && id != card_id implies #[trigger] world.entities@[id as int]
                            == entities_before[id as int] by {}
                    }
                    updates.push(update);
                },
                None => {},
            }
        }
        k += 1;
    }
    proof {
        assert forall|i: int, j: int| 0 <= i < j < updates@.len() implies {
            &&& updates@[i].card_id != updates@[j].card_id
            &&& pile.index(before[updates@[i].card_id as int]) <= pile.index(
                before[updates@[j].card_id as int],
            )
        } by {
            assert(place[i] < place[j]);
            let a = order@[place[i]];
            let b = order@[place[j]];
            assert(a.1 <= b.1);
        }
        assert forall|id: Entity| #[trigger]
            is_positioned(before, cards, pile, anchor, anchor_target, id) implies moves(
            updates@,
            id,
        ) by {
            assert(in_pile(before, cards, pile, id));
            assert(lists(order@, id));
            let j = choose|j: int| 0 <= j < order@.len() && (#[trigger] order@[j]).0 == id;
            assert(moves(updates@, order@[j].0));
        }
        assert forall|id: int| 0 <= id < before.len() implies world.entities@[id] == after_moves(
            before,
            updates@,
            now,
        )[id] by {
            let entity = id as Entity;
            assert(world.entities@[entity as int] == (if moves(updates@, entity) {
                moved(before[entity as int], now)
            } else {
                before[entity as int]
            }));
        }
        assert(world.entities@ =~= after_moves(before, updates@, now));
    }
    updates
}

/// Whether `table_id` names a table.
pub open spec fn table_found(entities: Seq<EntityData>, table_id: Entity) -> bool {
    &&& table_id < entities.len()
    &&& entities[table_id as int].table is Some
    &&& entities[table_id as int].card is None
}

/// Whether `player_id` names a player.
pub open spec fn player_found(entities: Seq<EntityData>, player_id: Entity) -> bool {
    &&& player_id < entities.len()
    &&& entities[player_id as int].player is Some
    &&& entities[player_id as int].card is None
}

/// Whether `report` tells what stacking the deck of a session does at `now`.
/// The card of lowest index is the anchor and goes to the surface of the
/// session's table; if the table is missing it is left where it is. Every other
/// card goes above the anchor by as many steps as its index.
pub open spec fn stacks_deck(
    entities: Seq<EntityData>,
    session_id: Entity,
    now: u64,
    report: PilePositioning,
) -> bool {
    let session = entities[session_id as int].session->0;
    &&& session_id < entities.len()
    &&& entities[session_id as int].session is Some
    &&& report.session_id == session_id
    &&& report.pile == Pile::Stack
    &&& anchors_pile(entities, session.card_ids@, Pile::Stack, report.anchor)
    &&& report.anchor_target == (if table_found(entities, session.table_id) {
        Some(PoseTarget::TableSurface { table_id: session.table_id })
    } else {
        None
    })
    &&& positions_pile(
        entities,
        session.card_ids@,
        Pile::Stack,
        report.anchor,
        report.anchor_target,
        now,
        report.updates@,
    )
}

/// Whether `report` tells what fanning the hand of a player does at `now`. The
/// card of lowest index is the anchor and goes in front of the player. Every
/// other card goes beside the anchor by as many steps as its index.
pub open spec fn fans_hand(
    entities: Seq<EntityData>,
    session_id: Entity,
    player_id: Entity,
    now: u64,
    report: PilePositioning,
) -> bool {
    let session = entities[session_id as int].session->0;
    &&& session_id < entities.len()
    &&& entities[session_id as int].session is Some
    &&& player_found(entities, player_id)
    &&& report.session_id == session_id
    &&& report.pile == (Pile::Fan { player_id })
    &&& anchors_pile(entities, session.card_ids@, report.pile, report.anchor)
    &&& report.anchor_target == Some(PoseTarget::InFrontOf { player_id })
    &&& positions_pile(
        entities,
        session.card_ids@,
        report.pile,
        report.anchor,
        report.anchor_target,
        now,
        report.updates@,
    )
}

proof fn first_of_order_anchors(
    order: Seq<(Entity, usize)>,
    entities: Seq<EntityData>,
    cards: Set<Entity>,
    pile: Pile,
)
    requires
        orders_pile(order, entities, cards, pile),
    ensures
        order.len() > 0 ==> anchors_pile(entities, cards, pile, Some(order[0].0)),
        order.len() == 0 ==> anchors_pile(entities, cards, pile, None),
{
    if order.len() > 0 {
        let first = order[0];
        assert(in_pile(entities, cards, pile, first.0));
        assert forall|id: Entity| #[trigger] in_pile(entities, cards, pile, id) implies pile.index(
            entities[first.0 as int],
        ) <= pile.index(entities[id as int]) by {
            assert(lists(order, id));
            let i = choose|i: int| 0 <= i < order.len() && (#[trigger] order[i]).0 == id;
            assert(order[0].1 <= order[i].1);
        }
    } else {
        assert forall|id: Entity| !#[trigger] in_pile(entities, cards, pile, id) by {
            if in_pile(entities, cards, pile, id) {
                assert(lists(order, id));
            }
        }
    }
}

/// Stacks the deck of one session for one tick. Nothing happens if `session_id`
/// names no session.
pub fn position_deck(world: &mut World, session_id: Entity, now: u64) -> (report: Option<
    PilePositioning,
>)
    ensures
        report is Some <==> old(world).is_session(session_id),
        report is Some ==> stacks_deck(old(world).entities@, session_id, now, report->0),
        report is Some ==> final(world).entities@ == after_moves(
            old(world).entities@,
            report->0.updates@,
            now,
        ),
        report is None ==> final(world).entities@ == old(world).entities@,
        old(world).placements_exclusive() ==> final(world).placements_exclusive(),
        old(world).cards_in_play() ==> final(world).cards_in_play(),
{
    proof {
        moves_keep_placements(old(world).entities@, now);
    }
    if session_id >= world.entities.len() {
        return None;
    }
    let (order, table_id) = match &world.entities[session_id].session {
        Some(session) => (sorted_pile(world, &session.card_ids, Pile::Stack), session.table_id),
        None => {
            return None;
        },
    };
    let ghost cards = world.entities@[session_id as int].session->0.card_ids@;
    let table_is_there = table_id < world.entities.len() && world.entities[table_id].table.is_some()
        && world.entities[table_id].card.is_none();
    let anchor_target = if table_is_there {
        Some(PoseTarget::TableSurface { table_id })
    } else {
        None
    };
    proof {
        first_of_order_anchors(order@, world.entities@, cards, Pile::Stack);
    }
    if order.len() == 0 {
        proof {
            no_moves_change_nothing(world.entities@, now);
        }
        return Some(
            PilePositioning {
                session_id,
                pile: Pile::Stack,
                anchor: None,
                anchor_target,
                updates: Vec::new(),
            },
        );
    }
    let anchor = order[0].0;
    let updates = position_in_order(world, &order, Pile::Stack, anchor_target, now, Ghost(cards));
    Some(PilePositioning { session_id, pile: Pile::Stack, anchor: Some(anchor), anchor_target, updates })
}

/// Fans the hand of one player in one session for one tick. Nothing happens if
/// `session_id` names no session or `player_id` names no player.
pub fn position_hand(world: &mut World, session_id: Entity, player_id: Entity, now: u64) -> (report:
    Option<PilePositioning>)
    ensures
        report is Some <==> old(world).is_session(session_id) && player_found(
            old(world).entities@,
            player_id,
        ),
        report is Some ==> fans_hand(old(world).entities@, session_id, player_id, now, report->0),
        report is Some ==> final(world).entities@ == after_moves(
            old(world).entities@,
            report->0.updates@,
            now,
        ),
        report is None ==> final(world).entities@ == old(world).entities@,
        old(world).placements_exclusive() ==> final(world).placements_exclusive(),
        old(world).cards_in_play() ==> final(world).cards_in_play(),
{
    proof {
        moves_keep_placements(old(world).entities@, now);
    }
    if session_id >= world.entities.len() || player_id >= world.entities.len() {
        return None;
    }
    if world.entities[player_id].player.is_none() || world.entities[player_id].card.is_some() {
        return None;
    }
    let pile = Pile::Fan { player_id };
    let order = match &world.entities[session_id].session {
        Some(session) => sorted_pile(world, &session.card_ids, pile),
        None => {
            return None;
        },
    };
    let ghost cards = world.entities@[session_id as int].session->0.card_ids@;
    let anchor_target = Some(PoseTarget::InFrontOf { player_id });
    proof {
        first_of_order_anchors(order@, world.entities@, cards, pile);
    }
    if order.len() == 0 {
        proof {
            no_moves_change_nothing(world.entities@, now);
        }
        return Some(
            PilePositioning { session_id, pile, anchor: None, anchor_target, updates: Vec::new() },
        );
    }
    let anchor = order[0].0;
    let updates = position_in_order(world, &order, pile, anchor_target, now, Ghost(cards));
    Some(PilePositioning { session_id, pile, anchor: Some(anchor), anchor_target, updates })
}

/// Moving cards keeps the placement flags exclusive.
pub proof fn moves_keep_placements(entities: Seq<EntityData>, now: u64)
    ensures
        forall|updates: Seq<PoseUpdate>|
            exclusive(entities) ==> exclusive(#[trigger] after_moves(entities, updates, now)),
{
    assert forall|updates: Seq<PoseUpdate>| exclusive(entities) implies exclusive(
        #[trigger] after_moves(entities, updates, now),
    ) by {
        let after = after_moves(entities, updates, now);
        assert forall|id: int| 0 <= id < after.len() implies (#[trigger] after[id]).placements()
            <= 1 by {
            assert(entities[id].placements() <= 1);
        }
    }
}

proof fn no_moves_change_nothing(entities: Seq<EntityData>, now: u64)
    ensures
        after_moves(entities, Seq::<PoseUpdate>::empty(), now) == entities,
{
    assert(after_moves(entities, Seq::<PoseUpdate>::empty(), now) =~= entities);
}

/// The entities after the moves of the first `k` reports were made, one report
/// after the other.
pub open spec fn entities_after(
    entities: Seq<EntityData>,
    reports: Seq<PilePositioning>,
    now: u64,
    k: int,
) -> Seq<EntityData>
    decreases k,
{
    if k <= 0 {
        entities
    } else {
        after_moves(entities_after(entities, reports, now, k - 1), reports[k - 1].updates@, now)
    }
}

/// Whether `reports` has a report for the pile of this session.
pub open spec fn reports_pile(reports: Seq<PilePositioning>, session_id: Entity, pile: Pile)
    -> bool {
    exists|k: int|
        0 <= k < reports.len() && (#[trigger] reports[k]).session_id == session_id && reports[k].pile
            == pile
}

/// Moving cards changes neither the number of entities nor what any of them is:
/// sessions, tables, players and cards stay what they were, and so do the
/// placement flags, the owners and the behaviours.
pub proof fn moves_keep_roles(entities: Seq<EntityData>, updates: Seq<PoseUpdate>, now: u64)
    ensures
        after_moves(entities, updates, now).len() == entities.len(),
        forall|id: int|
            0 <= id < entities.len() ==> {
                let data = entities[id];
                let next = #[trigger] after_moves(entities, updates, now)[id];
                &&& next.session == data.session
                &&& next.table == data.table
                &&& next.player == data.player
                &&& next.card == data.card
                &&& next.in_deck == data.in_deck
                &&& next.in_hand == data.in_hand
                &&& next.played == data.played
                &&& next.in_taken_trick == data.in_taken_trick
                &&& next.trump == data.trump
                &&& next.belongs_to_player == data.belongs_to_player
                &&& next.behaviour == data.behaviour
            },
{
}

proof fn entities_after_keeps_roles(
    entities: Seq<EntityData>,
    reports: Seq<PilePositioning>,
    now: u64,
    k: int,
)
    ensures
        entities_after(entities, reports, now, k).len() == entities.len(),
        forall|id: int|
            0 <= id < entities.len() ==> {
                let data = entities[id];
                let next = #[trigger] entities_after(entities, reports, now, k)[id];
                &&& next.session == data.session
                &&& next.table == data.table
                &&& next.player == data.player
                &&& next.card == data.card
            },
    decreases k,
{
    if k > 0 {
        entities_after_keeps_roles(entities, reports, now, k - 1);
        moves_keep_roles(
            entities_after(entities, reports, now, k - 1),
            reports[k - 1].updates@,
            now,
        );
    }
}

proof fn entities_after_reads_a_prefix(
    entities: Seq<EntityData>,
    shorter: Seq<PilePositioning>,
    longer: Seq<PilePositioning>,
    now: u64,
    k: int,
)
    requires
        k <= shorter.len() <= longer.len(),
        forall|j: int| 0 <= j < shorter.len() ==> shorter[j] == longer[j],
    ensures
        entities_after(entities, shorter, now, k) == entities_after(entities, longer, now, k),
    decreases k,
{
    if k > 0 {
        entities_after_reads_a_prefix(entities, shorter, longer, now, k - 1);
    }
}

/// Stacks the deck of every session for one tick, the sessions by rising
/// identity. Each report tells what was done to the entities as the reports
/// before it left them.
pub fn handle_cards_positioning_cards_in_deck(world: &mut World, now: u64) -> (reports: Vec<
    PilePositioning,
>)
    ensures
        final(world).entities@ == entities_after(
            old(world).entities@,
            reports@,
            now,
            reports@.len() as int,
        ),
        forall|k: int|
            0 <= k < reports@.len() ==> stacks_deck(
                entities_after(old(world).entities@, reports@, now, k),
                (#[trigger] reports@[k]).session_id,
                now,
                reports@[k],
            ),
        forall|i: int, j: int|
            0 <= i < j < reports@.len() ==> reports@[i].session_id < reports@[j].session_id,
        forall|id: Entity|
            old(world).is_session(id) <==> reports_pile(reports@, id, Pile::Stack),
        old(world).placements_exclusive() ==> final(world).placements_exclusive(),
        old(world).cards_in_play() ==> final(world).cards_in_play(),
{
    let ghost before = world.entities@;
    let mut reports: Vec<PilePositioning> = Vec::new();
    let size = world.entities.len();
    let mut id: usize = 0;
    while id < size
        invariant
            id <= size,
            size == before.len(),
            before == old(world).entities@,
            world.entities@ == entities_after(before, reports@, now, reports@.len() as int),
            forall|k: int|
                0 <= k < reports@.len() ==> stacks_deck(
                    entities_after(before, reports@, now, k),
                    (#[trigger] reports@[k]).session_id,
                    now,
                    reports@[k],
                ),
            forall|k: int| 0 <= k < reports@.len() ==> (#[trigger] reports@[k]).session_id < id,
            forall|i: int, j: int|
                0 <= i < j < reports@.len() ==> reports@[i].session_id < reports@[j].session_id,
            forall|e: Entity|
                e < id && old(world).is_session(e) ==> reports_pile(reports@, e, Pile::Stack),
            old(world).placements_exclusive() ==> world.placements_exclusive(),
            old(world).cards_in_play() ==> world.cards_in_play(),
        decreases size - id,
    {
        proof {
            entities_after_keeps_roles(before, reports@, now, reports@.len() as int);
        }
        let ghost current = world.entities@;
        let ghost earlier = reports@;
        match position_deck(world, id, now) {
            Some(report) => {
                reports.push(report);
                proof {
                    let count = earlier.len() as int;
                    assert forall|k: int| 0 <= k <= count implies entities_after(
                        before,
                        reports@,
                        now,
                        k,
                    ) == entities_after(before, earlier, now, k) by {
                        entities_after_reads_a_prefix(before, earlier, reports@, now, k);
                    }
                    assert(reports@[count] == report);
                    assert(entities_after(before, reports@, now, count + 1) == after_moves(
                        entities_after(before, reports@, now, count),
                        reports@[count].updates@,
                        now,
                    ));
                    assert forall|e: Entity|
                        e < id + 1 && old(world).is_session(e) implies reports_pile(
                        reports@,
                        e,
                        Pile::Stack,
                    ) by {
                        if e < id {
                            assert(reports_pile(earlier, e, Pile::Stack));
                            let k = choose|k: int|
                                0 <= k < earlier.len() && (#[trigger] earlier[k]).session_id == e
                                    && earlier[k].pile == Pile::Stack;
                            assert(reports@[k] == earlier[k]);
                        } else {
                            assert(reports@[count].session_id == e);
                        }
                    }
                }
            },
            None => {},
        }
        id += 1;
    }
    proof {
        assert forall|e: Entity| reports_pile(reports@, e, Pile::Stack) implies old(
            world,
        ).is_session(e) by {
            let k = choose|k: int|
                0 <= k < reports@.len() && (#[trigger] reports@[k]).session_id == e
                    && reports@[k].pile == Pile::Stack;
            entities_after_keeps_roles(before, reports@, now, k);
        }
    }
    reports
}

/// Fans the hand of every player of every session for one tick. The sessions are
/// taken by rising identity and the players of a session in the order in which
/// its player set hands them out; a member that names no player is passed over.
/// Each report tells what was done to the entities as the reports before it left
/// them.
pub fn handle_cards_positioning_cards_in_hand(world: &mut World, now: u64) -> (reports: Vec<
    PilePositioning,
>)
    ensures
        final(world).entities@ == entities_after(
            old(world).entities@,
            reports@,
            now,
            reports@.len() as int,
        ),
        forall|k: int|
            0 <= k < reports@.len() ==> {
                let report = #[trigger] reports@[k];
                &&& report.pile is Fan
                &&& old(world).session(report.session_id).player_ids@.contains(
                    report.pile->player_id,
                )
                &&& fans_hand(
                    entities_after(old(world).entities@, reports@, now, k),
                    report.session_id,
                    report.pile->player_id,
                    now,
                    report,
                )
            },
        forall|i: int, j: int|
            0 <= i < j < reports@.len() ==> {
                &&& reports@[i].session_id <= reports@[j].session_id
                &&& reports@[i].session_id == reports@[j].session_id ==> reports@[i].pile
                    != reports@[j].pile
            },
        forall|session_id: Entity, player_id: Entity|
            #![trigger reports_pile(reports@, session_id, Pile::Fan { player_id })]
            (old(world).is_session(session_id) && old(world).session(
                session_id,
            ).player_ids@.contains(player_id) && player_found(old(world).entities@, player_id))
                <==> reports_pile(reports@, session_id, Pile::Fan { player_id }),
        old(world).placements_exclusive() ==> final(world).placements_exclusive(),
        old(world).cards_in_play() ==> final(world).cards_in_play(),
{
    let ghost before = world.entities@;
    let mut reports: Vec<PilePositioning> = Vec::new();
    let size = world.entities.len();
    let mut id: usize = 0;
    while id < size
        invariant
            id <= size,
            size == before.len(),
            before == old(world).entities@,
            world.entities@ == entities_after(before, reports@, now, reports@.len() as int),
            forall|k: int|
                0 <= k < reports@.len() ==> {
                    let report = #[trigger] reports@[k];
                    &&& report.pile is Fan
                    &&& report.session_id < id
                    &&& old(world).session(report.session_id).player_ids@.contains(
                        report.pile->player_id,
                    )
                    &&& fans_hand(
                        entities_after(before, reports@, now, k),
                        report.session_id,
                        report.pile->player_id,
                        now,
                        report,
                    )
                },
            forall|i: int, j: int|
                0 <= i < j < reports@.len() ==> {
                    &&& reports@[i].session_id <= reports@[j].session_id
                    &&& reports@[i].session_id == reports@[j].session_id ==> reports@[i].pile
                        != reports@[j].pile
                },
            forall|session_id: Entity, player_id: Entity|
                #![trigger reports_pile(reports@, session_id, Pile::Fan { player_id })]
                session_id < id && old(world).is_session(session_id) && old(world).session(
                    session_id,
                ).player_ids@.contains(player_id) && player_found(before, player_id)
                    ==> reports_pile(reports@, session_id, Pile::Fan { player_id }),
            old(world).placements_exclusive() ==> world.placements_exclusive(),
            old(world).cards_in_play() ==> world.cards_in_play(),
        decreases size - id,
    {
        proof {
            entities_after_keeps_roles(before, reports@, now, reports@.len() as int);
        }
        let players = match &world.entities[id].session {
            Some(session) => session.player_ids.to_vec(),
            None => Vec::new(),
        };
        let ghost members = if before[id as int].session is Some {
            before[id as int].session->0.player_ids@
        } else {
            Set::<Entity>::empty()
        };
        assert(players@.to_set() =~= members);
        let mut m: usize = 0;
        while m < players.len()
            invariant
                m <= players@.len(),
                id < size,
                size == before.len(),
                before == old(world).entities@,
                players@.no_duplicates(),
                players@.to_set() == members,
                before[id as int].session is Some ==> members
                    == before[id as int].session->0.player_ids@,
                before[id as int].session is None ==> players@.len() == 0,
                world.entities@ == entities_after(before, reports@, now, reports@.len() as int),
                forall|k: int|
                    0 <= k < reports@.len() ==> {
                        let report = #[trigger] reports@[k];
                        &&& report.pile is Fan
                        &&& report.session_id <= id
                        &&& old(world).session(report.session_id).player_ids@.contains(
                            report.pile->player_id,
                        )
                        &&& fans_hand(
                            entities_after(before, reports@, now, k),
                            report.session_id,
                            report.pile->player_id,
                            now,
                            report,
                        )
                    },
                forall|i: int, j: int|
                    0 <= i < j < reports@.len() ==> {
                        &&& reports@[i].session_id <= reports@[j].session_id
                        &&& reports@[i].session_id == reports@[j].session_id ==> reports@[i].pile
                            != reports@[j].pile
                    },
                forall|k: int, j: int|
                    0 <= k < reports@.len() && m <= j < players@.len() && (
                    #[trigger] reports@[k]).session_id == id ==> reports@[k].pile != (Pile::Fan {
                        player_id: #[trigger] players@[j],
                    }),
                forall|session_id: Entity, player_id: Entity|
                    #![trigger reports_pile(reports@, session_id, Pile::Fan { player_id })]
                    session_id < id && old(world).is_session(session_id) && old(world).session(
                        session_id,
                    ).player_ids@.contains(player_id) && player_found(before, player_id)
                        ==> reports_pile(reports@, session_id, Pile::Fan { player_id }),
                forall|j: int|
                    0 <= j < m && player_found(before, #[trigger] players@[j]) ==> reports_pile(
                        reports@,
                        id,
                        Pile::Fan { player_id: players@[j] },
                    ),
                old(world).placements_exclusive() ==> world.placements_exclusive(),
                old(world).cards_in_play() ==> world.cards_in_play(),
            decreases players@.len() - m,
        {
            let player_id = players[m];
            let ghost earlier = reports@;
            proof {
                entities_after_keeps_roles(before, reports@, now, reports@.len() as int);
                assert(players@.contains(player_id));
                assert(members.contains(player_id));
            }
            match position_hand(world, id, player_id, now) {
                Some(report) => {
                    reports.push(report);
                    proof {
                        let count = earlier.len() as int;
                        assert forall|k: int| 0 <= k <= count implies entities_after(
                            before,
                            reports@,
                            now,
                            k,
                        ) == entities_after(before, earlier, now, k) by {
                            entities_after_reads_a_prefix(before, earlier, reports@, now, k);
                        }
                        assert(reports@[count] == report);
                        assert(entities_after(before, reports@, now, count + 1) == after_moves(
                            entities_after(before, reports@, now, count),
                            reports@[count].updates@,
                            now,
                        ));
                        assert forall|session_id: Entity, other: Entity|
                            #![trigger reports_pile(reports@, session_id, Pile::Fan { player_id: other })]
                            reports_pile(
                                earlier,
                                session_id,
                                Pile::Fan { player_id: other },
                            ) implies reports_pile(
                            reports@,
                            session_id,
                            Pile::Fan { player_id: other },
                        ) by {
                            let k = choose|k: int|
                                0 <= k < earlier.len() && (#[trigger] earlier[k]).session_id
                                    == session_id && earlier[k].pile == (Pile::Fan {
                                    player_id: other,
                                });
                            assert(reports@[k] == earlier[k]);
                        }
                        assert(reports_pile(reports@, id, Pile::Fan { player_id })) by {
                            assert(reports@[count].session_id == id);
                        }
                        assert forall|j: int|
                            0 <= j < m + 1 && player_found(
                                before,
                                #[trigger] players@[j],
                            ) implies reports_pile(
                            reports@,
                            id,
                            Pile::Fan { player_id: players@[j] },
                        ) by {
                            if j < m {
                                assert(reports_pile(
                                    earlier,
                                    id,
                                    Pile::Fan { player_id: players@[j] },
                                ));
                            }
                        }
                    }
                },
                None => {},
            }
            m += 1;
        }
        proof {
            assert forall|session_id: Entity, player_id: Entity|
                #![trigger reports_pile(reports@, session_id, Pile::Fan { player_id })]
                session_id < id + 1 && old(world).is_session(session_id) && old(world).session(
                    session_id,
                ).player_ids@.contains(player_id) && player_found(
                    before,
                    player_id,
                ) implies reports_pile(reports@, session_id, Pile::Fan { player_id }) by {
                if session_id == id {
                    assert(players@.to_set().contains(player_id));
                    assert(players@.contains(player_id));
                    let j = choose|j: int| 0 <= j < players@.len() && players@[j] == player_id;
                    assert(player_found(before, players@[j]));
                }
            }
        }
        id += 1;
    }
    proof {
        assert forall|session_id: Entity, player_id: Entity|
            #![trigger reports_pile(reports@, session_id, Pile::Fan { player_id })]
            reports_pile(reports@, session_id, Pile::Fan { player_id }) implies (old(
            world,
        ).is_session(session_id) && old(world).session(session_id).player_ids@.contains(player_id)
            && player_found(old(world).entities@, player_id)) by {
            let k = choose|k: int|
                0 <= k < reports@.len() && (#[trigger] reports@[k]).session_id == session_id
                    && reports@[k].pile == (Pile::Fan { player_id });
            entities_after_keeps_roles(before, reports@, now, k);
        }
    }
    reports
}

/// A card that rests is not moved: no pose rule has an update for it, and it is
/// after the tick as it was before.
pub proof fn resting_cards_stay(
    entities: Seq<EntityData>,
    cards: Set<Entity>,
    pile: Pile,
    anchor: Option<Entity>,
    anchor_target: Option<PoseTarget>,
    now: u64,
    updates: Seq<PoseUpdate>,
    id: Entity,
)
    requires
        positions_pile(entities, cards, pile, anchor, anchor_target, now, updates),
        id < entities.len(),
        entities[id as int].sleeping is Some,
    ensures
        !moves(updates, id),
        after_moves(entities, updates, now)[id as int] == entities[id as int],
{
    if moves(updates, id) {
        let i = choose|i: int| 0 <= i < updates.len() && (#[trigger] updates[i]).card_id == id;
        assert(is_positioned(entities, cards, pile, anchor, anchor_target, updates[i].card_id));
    }
}

/// A travel ends in rest. An entity that is moved at every tick travels from the
/// first tick on, keeps the start of its travel from tick to tick, and rests
/// from the first tick that lies `SETTLING_TIME` or more after the start.
pub proof fn a_travel_ends_in_rest(data: EntityData, first: u64, later: u64)
    requires
        data.travel_time is None,
        data.sleeping is None,
        first <= later,
    ensures
        later - first < SETTLING_TIME ==> moved(moved(data, first), later) == (EntityData {
            travel_time: Some(TravelTime { start_time: first }),
            ..data
        }),
        later - first >= SETTLING_TIME ==> moved(moved(data, first), later) == (EntityData {
            travel_time: None,
            sleeping: Some(Sleeping { start_time: later }),
            ..data
        }),
{
}

} // verus!
