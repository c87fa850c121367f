//! The rule that derives a card's positioning behaviour from its placement flags.
use crate::components::CardPositioningBehaviour;
use crate::ids::Entity;
use crate::world::{EntityData, World};
use vstd::prelude::*;

verus! {

/// The behaviour for a set of flags, each given as present or absent. The first
/// of hand, deck, played and trump that is present decides; with none of them
/// there is no behaviour.
pub open spec fn behaviour_of(in_hand: bool, in_deck: bool, played: bool, trump: bool) -> Option<
    CardPositioningBehaviour,
> {
    if in_hand {
        Some(CardPositioningBehaviour::InHand)
    } else if in_deck {
        Some(CardPositioningBehaviour::InDeck)
    } else if played {
        Some(CardPositioningBehaviour::Played)
    } else if trump {
        Some(CardPositioningBehaviour::RevealedOnDeck)
    } else {
        None
    }
}

/// The behaviour that the flags of an entity call for.
pub open spec fn behaviour_for(data: EntityData) -> Option<CardPositioningBehaviour> {
    behaviour_of(data.in_hand is Some, data.in_deck is Some, data.played is Some, data.trump is Some)
}

/// An entity after classification: a card carries the behaviour that its flags
/// call for, and nothing else about it changes. Other entities are left alone.
pub open spec fn classified(data: EntityData) -> EntityData {
    if data.card is Some {
        EntityData { behaviour: behaviour_for(data), ..data }
    } else {
        data
    }
}

/// Whether classification gives this card another behaviour than it has.
pub open spec fn behaviour_changes(data: EntityData) -> bool {
    data.card is Some && behaviour_for(data) != data.behaviour
}

/// Whether this is a card that is in a hand although no player owns it.
pub open spec fn in_hand_without_owner(data: EntityData) -> bool {
    data.card is Some && data.in_hand is Some && data.belongs_to_player is None
}

/// What one round of classification has to tell.
pub struct Classification {
    /// The cards whose behaviour changed, with the new behaviour, by rising identity.
    pub changed: Vec<(Entity, Option<CardPositioningBehaviour>)>,
    /// The cards that are in a hand without an owner, by rising identity.
    pub in_hand_without_owner: Vec<Entity>,
}

/// The behaviour for a set of flags; each argument says whether the flag is set.
pub fn classify(in_hand: bool, in_deck: bool, played: bool, trump: bool) -> (behaviour: Option<
    CardPositioningBehaviour,
>)
    ensures
        behaviour == behaviour_of(in_hand, in_deck, played, trump),
{
    if in_hand {
        Some(CardPositioningBehaviour::InHand)
    } else if in_deck {
        Some(CardPositioningBehaviour::InDeck)
    } else if played {
        Some(CardPositioningBehaviour::Played)
    } else if trump {
        Some(CardPositioningBehaviour::RevealedOnDeck)
    } else {
        None
    }
}

/// Gives every card the behaviour that its flags call for, whatever behaviour it
/// had, and reports which cards changed. Animation markers are not touched.
pub fn determine_card_positioning_behaviours(world: &mut World) -> (report: Classification)
    ensures
        final(world).entities@.len() == old(world).entities@.len(),
        old(world).placements_exclusive() ==> final(world).placements_exclusive(),
        old(world).cards_in_play() ==> final(world).cards_in_play(),
        forall|id: int|
            0 <= id < old(world).entities@.len() ==> #[trigger] final(world).entities@[id]
                == classified(old(world).entities@[id]),
        forall|i: int, j: int|
            0 <= i < j < report.changed@.len() ==> report.changed@[i].0 < report.changed@[j].0,
        forall|i: int|
            0 <= i < report.changed@.len() ==> {
                let entry = #[trigger] report.changed@[i];
                &&& entry.0 < old(world).entities@.len()
                &&& behaviour_changes(old(world).entities@[entry.0 as int])
                &&& entry.1 == behaviour_for(old(world).entities@[entry.0 as int])
            },
        forall|id: int|
            0 <= id < old(world).entities@.len() && behaviour_changes(
                #[trigger] old(world).entities@[id],
            ) ==> exists|i: int|
                0 <= i < report.changed@.len() && (#[trigger] report.changed@[i]).0 == id,
        forall|i: int, j: int|
            0 <= i < j < report.in_hand_without_owner@.len() ==> report.in_hand_without_owner@[i]
                < report.in_hand_without_owner@[j],
        forall|id: Entity|
            report.in_hand_without_owner@.contains(id) <==> id < old(world).entities@.len()
                && in_hand_without_owner(old(world).entities@[id as int]),
{
    let mut changed: Vec<(Entity, Option<CardPositioningBehaviour>)> = Vec::new();
    let mut unowned: Vec<Entity> = Vec::new();
    let n = world.entities.len();
    let mut id: usize = 0;
    while id < n
        invariant
            id <= n,
            n == old(world).entities@.len(),
            world.entities@.len() == n,
            forall|k: int| 0 <= k < id ==> #[trigger] world.entities@[k] == classified(
                old(world).entities@[k],
            ),
            forall|k: int| id <= k < n ==> #[trigger] world.entities@[k] == old(
                world,
            ).entities@[k],
            forall|i: int, j: int| 0 <= i < j < changed@.len() ==> changed@[i].0 < changed@[j].0,
            forall|i: int|
                0 <= i < changed@.len() ==> {
                    let entry = #[trigger] changed@[i];
                    &&& entry.0 < id
                    &&& behaviour_changes(old(world).entities@[entry.0 as int])
                    &&& entry.1 == behaviour_for(old(world).entities@[entry.0 as int])
                },
            forall|k: int|
                0 <= k < id && behaviour_changes(#[trigger] old(world).entities@[k])
                    ==> exists|i: int| 0 <= i < changed@.len() && (#[trigger] changed@[i]).0 == k,
            forall|i: int, j: int| 0 <= i < j < unowned@.len() ==> unowned@[i] < unowned@[j],
            forall|i: int| 0 <= i < unowned@.len() ==> #[trigger] unowned@[i] < id,
            forall|e: Entity|
                unowned@.contains(e) <==> e < id && in_hand_without_owner(
                    old(world).entities@[e as int],
                ),
        decreases n - id,
    {
        if world.entities[id].card.is_some() {
            let in_hand = world.entities[id].in_hand.is_some();
            let behaviour = classify(
                in_hand,
                world.entities[id].in_deck.is_some(),
                world.entities[id].played.is_some(),
                world.entities[id].trump.is_some(),
            );
            if in_hand && world.entities[id].belongs_to_player.is_none() {
                let ghost before = unowned@;
                unowned.push(id);
                assert forall|e: Entity|
                    unowned@.contains(e) <==> e < id + 1 && in_hand_without_owner(
                        old(world).entities@[e as int],
                    ) by {
                    if unowned@.contains(e) {
                        let i = choose|i: int| 0 <= i < unowned@.len() && unowned@[i] == e;
                        if i < before.len() {
                            assert(before[i] == e);
                            assert(before.contains(e));
                        }
                    }
                    if e < id + 1 && in_hand_without_owner(old(world).entities@[e as int]) {
                        if e < id {
                            assert(before.contains(e));
                            let i = choose|i: int| 0 <= i < before.len() && before[i] == e;
                            assert(unowned@[i] == e);
                        } else {
                            assert(unowned@[before.len() as int] == e);
                        }
                    }
                }
            } else {
                assert forall|e: Entity|
                    unowned@.contains(e) <==> e < id + 1 && in_hand_without_owner(
                        old(world).entities@[e as int],
                    ) by {}
            }
            if behaviour != world.entities[id].behaviour {
                let ghost before = changed@;
                changed.push((id, behaviour));
                assert forall|k: int|
                    0 <= k < id + 1 && behaviour_changes(
                        #[trigger] old(world).entities@[k],
                    ) implies exists|i: int|
                    0 <= i < changed@.len() && (#[trigger] changed@[i]).0 == k by {
                    if k < id {
                        let i = choose|i: int|
                            0 <= i < before.len() && (#[trigger] before[i]).0 == k;
                        assert(changed@[i].0 == k);
                    } else {
                        assert(changed@[before.len() as int].0 == k);
                    }
                }
            }
            world.entities[id].behaviour = behaviour;
        }
        id += 1;
    }
    Classification { changed, in_hand_without_owner: unowned }
}

/// Classifying again changes nothing: the behaviour depends on the flags alone,
/// not on the behaviour that the card had before.
pub proof fn classification_is_idempotent(data: EntityData)
    ensures
        classified(classified(data)) == classified(data),
        behaviour_for(classified(data)) == behaviour_for(data),
        !behaviour_changes(classified(data)),
{
}

/// Two cards with the same flags get the same behaviour, whatever each had before.
pub proof fn classification_depends_on_flags_alone(a: EntityData, b: EntityData)
    requires
        a.in_hand is Some <==> b.in_hand is Some,
        a.in_deck is Some <==> b.in_deck is Some,
        a.played is Some <==> b.played is Some,
        a.trump is Some <==> b.trump is Some,
    ensures
        behaviour_for(a) == behaviour_for(b),
        a.card is Some && b.card is Some ==> classified(a).behaviour == classified(b).behaviour,
{
}

/// With exclusive placement flags the behaviour names the one flag that is set.
pub proof fn exclusive_placement_decides_behaviour(data: EntityData)
    requires
        data.placements() <= 1,
    ensures
        data.in_hand is Some ==> behaviour_for(data) == Some(CardPositioningBehaviour::InHand),
        data.in_deck is Some ==> behaviour_for(data) == Some(CardPositioningBehaviour::InDeck),
        data.played is Some ==> behaviour_for(data) == Some(CardPositioningBehaviour::Played),
        classified(data).placements() == data.placements(),
{
}

} // verus!
