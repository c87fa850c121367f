//! Picking the cards of a session that belong to one pile and ordering them by
//! their index in that pile.
use crate::components::BelongsToPlayer;
use crate::ids::{ascending, sorted_by_index, Entity, IdSet};
use crate::world::{EntityData, World};
use vstd::prelude::*;

verus! {

/// A pile of cards, as one of the rules of the table sees it.
#[derive(Debug, Eq, PartialEq, Clone, Copy, Structural)]
pub enum Pile {
    /// The cards that can still be dealt: every card in the deck.
    Undealt,
    /// The cards in the deck that take part in stacking: those with a behaviour.
    Stack,
    /// The cards in the hand of one player that take part in fanning: those with
    /// a behaviour.
    Fan { player_id: Entity },
}

impl Pile {
    /// Whether an entity lies in this pile.
    pub open spec fn holds(self, data: EntityData) -> bool {
        match self {
            Pile::Undealt => data.card is Some && data.in_deck is Some,
            Pile::Stack => data.card is Some && data.in_deck is Some && data.behaviour is Some,
            Pile::Fan { player_id } => {
                &&& data.card is Some
                &&& data.in_hand is Some
                &&& data.behaviour is Some
                &&& data.belongs_to_player == Some(BelongsToPlayer(player_id))
            },
        }
    }

    /// The index by which the pile orders an entity that lies in it.
    pub open spec fn index(self, data: EntityData) -> usize {
        match self {
            Pile::Undealt => data.in_deck->0.index_from_bottom,
            Pile::Stack => data.in_deck->0.index_from_bottom,
            Pile::Fan { player_id } => data.in_hand->0.index_from_left,
        }
    }

    /// The index of an entity in this pile, or nothing if it does not lie in it.
    pub fn index_in(&self, data: &EntityData) -> (index: Option<usize>)
        ensures
            index == (if self.holds(*data) {
                Some(self.index(*data))
            } else {
                None
            }),
    {
        if data.card.is_none() {
            return None;
        }
        match self {
            Pile::Undealt => match data.in_deck {
                Some(in_deck) => Some(in_deck.index_from_bottom),
                None => None,
            },
            Pile::Stack => match data.in_deck {
                Some(in_deck) => if data.behaviour.is_some() {
                    Some(in_deck.index_from_bottom)
                } else {
                    None
                },
                None => None,
            },
            Pile::Fan { player_id } => match data.in_hand {
                Some(in_hand) => match data.belongs_to_player {
                    Some(owner) => if data.behaviour.is_some() && owner.0 == *player_id {
                        Some(in_hand.index_from_left)
                    } else {
                        None
                    },
                    None => None,
                },
                None => None,
            },
        }
    }
}

/// Whether `id` is one of `cards`, names an entity, and lies in the pile.
pub open spec fn in_pile(entities: Seq<EntityData>, cards: Set<Entity>, pile: Pile, id: Entity)
    -> bool {
    cards.contains(id) && id < entities.len() && pile.holds(entities[id as int])
}

/// Whether `order` has an item for `id`.
pub open spec fn lists(order: Seq<(Entity, usize)>, id: Entity) -> bool {
    exists|i: int| 0 <= i < order.len() && (#[trigger] order[i]).0 == id
}

/// Whether `order` lists the cards of the pile, each once and with its index,
/// from the lowest index to the highest. Cards of equal index may stand in
/// either order.
pub open spec fn orders_pile(
    order: Seq<(Entity, usize)>,
    entities: Seq<EntityData>,
    cards: Set<Entity>,
    pile: Pile,
) -> bool {
    &&& ascending(order)
    &&& forall|i: int, j: int| 0 <= i < j < order.len() ==> order[i].0 != order[j].0
    &&& forall|i: int|
        0 <= i < order.len() ==> {
            let item = #[trigger] order[i];
            in_pile(entities, cards, pile, item.0) && item.1 == pile.index(
                entities[item.0 as int],
            )
        }
    &&& forall|id: Entity| #[trigger] in_pile(entities, cards, pile, id) ==> lists(order, id)
}

proof fn lists_after_push(order: Seq<(Entity, usize)>, item: (Entity, usize))
    ensures
        lists(order.push(item), item.0),
        forall|id: Entity| #[trigger] lists(order, id) ==> lists(order.push(item), id),
{
    assert(order.push(item)[order.len() as int].0 == item.0);
    assert forall|id: Entity| #[trigger] lists(order, id) implies lists(order.push(item), id) by {
        let i = choose|i: int| 0 <= i < order.len() && (#[trigger] order[i]).0 == id;
        assert(order.push(item)[i].0 == id);
    }
}

proof fn same_items_list_the_same(a: Seq<(Entity, usize)>, b: Seq<(Entity, usize)>)
    requires
        a.to_multiset() == b.to_multiset(),
    ensures
        a.len() == b.len(),
        forall|item: (Entity, usize)| a.contains(item) <==> b.contains(item),
        forall|id: Entity| lists(a, id) <==> lists(b, id),
        a.no_duplicates() ==> b.no_duplicates(),
{
    vstd::seq_lib::to_multiset_len(a);
    vstd::seq_lib::to_multiset_len(b);
    assert forall|item: (Entity, usize)| a.contains(item) <==> b.contains(item) by {
        vstd::seq_lib::to_multiset_contains(a, item);
        vstd::seq_lib::to_multiset_contains(b, item);
    }
    assert forall|id: Entity| lists(a, id) <==> lists(b, id) by {
        if lists(a, id) {
            let i = choose|i: int| 0 <= i < a.len() && (#[trigger] a[i]).0 == id;
            assert(a.contains(a[i]));
            assert(b.contains(a[i]));
            let j = choose|j: int| 0 <= j < b.len() && b[j] == a[i];
            assert(b[j].0 == id);
        }
        if lists(b, id) {
            let i = choose|i: int| 0 <= i < b.len() && (#[trigger] b[i]).0 == id;
            assert(b.contains(b[i]));
            assert(a.contains(b[i]));
            let j = choose|j: int| 0 <= j < a.len() && a[j] == b[i];
            assert(a[j].0 == id);
        }
    }
    if a.no_duplicates() {
        a.lemma_multiset_has_no_duplicates();
        b.lemma_multiset_has_no_duplicates_conv();
    }
}

/// The cards of `cards` that lie in the pile, ordered by their index in it.
/// Only the identities in `cards` are visited.
pub fn sorted_pile(world: &World, cards: &IdSet, pile: Pile) -> (order: Vec<(Entity, usize)>)
    ensures
        orders_pile(order@, world.entities@, cards@, pile),
{
    let ids = cards.to_vec();
    let mut picked: Vec<(Entity, usize)> = Vec::new();
    let ghost mut source: Seq<int> = Seq::empty();
    let mut k: usize = 0;
    while k < ids.len()
        invariant
            k <= ids@.len(),
            ids@.no_duplicates(),
            ids@.to_set() == cards@,
            source.len() == picked@.len(),
            forall|i: int|
                0 <= i < picked@.len() ==> 0 <= #[trigger] source[i] < k && picked@[i].0
                    == ids@[source[i]],
            forall|i: int|
                0 <= i < picked@.len() ==> {
                    let item = #[trigger] picked@[i];
                    &&& in_pile(world.entities@, cards@, pile, item.0)
                    &&& item.1 == pile.index(world.entities@[item.0 as int])
                },
            forall|i: int, j: int| 0 <= i < j < picked@.len() ==> picked@[i].0 != picked@[j].0,
            forall|j: int|
                0 <= j < k && in_pile(world.entities@, cards@, pile, #[trigger] ids@[j]) ==> lists(
                    picked@,
                    ids@[j],
                ),
        decreases ids@.len() - k,
    {
        let id = ids[k];
        assert(ids@.contains(id));
        assert(cards@.contains(id));
        if id < world.entities.len() {
            match pile.index_in(&world.entities[id]) {
                Some(index) => {
                    proof {
                        lists_after_push(picked@, (id, index));
                        assert forall|i: int| 0 <= i < picked@.len() implies picked@[i].0
                            != id by {
                            assert(source[i] < k);
                            assert(ids@[source[i]] != ids@[k as int]);
                        }
                        source = source.push(k as int);
                    }
                    picked.push((id, index));
                },
                None => {},
            }
        }
        k += 1;
    }
    let ghost unsorted = picked@;
    let order = sorted_by_index(picked);
    proof {
        same_items_list_the_same(unsorted, order@);
        assert forall|i: int, j: int| 0 <= i < j < unsorted.len() implies unsorted[i]
            != unsorted[j] by {}
        assert(unsorted.no_duplicates());
        assert forall|i: int| 0 <= i < order@.len() implies {
            let item = #[trigger] order@[i];
            in_pile(world.entities@, cards@, pile, item.0) && item.1 == pile.index(
                world.entities@[item.0 as int],
            )
        } by {
            assert(order@.contains(order@[i]));
            assert(unsorted.contains(order@[i]));
        }
        assert forall|i: int, j: int| 0 <= i < j < order@.len() implies order@[i].0
            != order@[j].0 by {
            assert(order@.contains(order@[i]));
            assert(unsorted.contains(order@[i]));
            assert(order@.contains(order@[j]));
            assert(unsorted.contains(order@[j]));
        }
        assert forall|id: Entity| #[trigger]
            in_pile(world.entities@, cards@, pile, id) implies lists(order@, id) by {
            assert(ids@.to_set().contains(id));
            assert(ids@.contains(id));
            let j = choose|j: int| 0 <= j < ids@.len() && ids@[j] == id;
            assert(lists(unsorted, ids@[j]));
        }
    }
    order
}

} // verus!
