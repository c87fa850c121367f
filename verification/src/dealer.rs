//! Choosing the dealer by a high-card draw. Players without a card are dealt
//! one; once every player holds a card the hands are scored, the one highest
//! score deals, and players tied for the highest score draw again.
use crate::components::{DealCardsEvent, Dealer, SessionRef};
use crate::ids::{count_in, Entity, IdMap, IdSet};
use crate::world::{EntityData, World, MAX_ENTITIES};
use vstd::prelude::*;

verus! {

/// What a card adds to the score of `player`: its rank's value if it is one of
/// `cards` and lies in the player's hand, and nothing otherwise.
pub open spec fn card_value(
    entities: Seq<EntityData>,
    cards: Set<Entity>,
    player: Entity,
    id: Entity,
) -> nat {
    if cards.contains(id) && id < entities.len() && entities[id as int].is_hand_card_of(player) {
        entities[id as int].card->0.rank.spec_value()
    } else {
        0
    }
}

/// The summed value of the cards among `cards` and the first `n` entities that
/// lie in the hand of `player`.
pub open spec fn hand_value(
    entities: Seq<EntityData>,
    cards: Set<Entity>,
    player: Entity,
    n: int,
) -> nat
    decreases n,
{
    if n <= 0 {
        0
    } else {
        hand_value(entities, cards, player, n - 1) + card_value(
            entities,
            cards,
            player,
            (n - 1) as Entity,
        )
    }
}

/// The score of `player` in a session with these cards: the summed value of
/// the whole hand.
pub open spec fn score(entities: Seq<EntityData>, cards: Set<Entity>, player: Entity) -> nat {
    hand_value(entities, cards, player, entities.len() as int)
}

/// What one round of the draw came to.
pub enum DealerDraw {
    /// There is no such session.
    SessionNotFound,
    /// The session has fewer than two players: no dealer is chosen.
    TooFewPlayers,
    /// Some players hold no card: they are to be dealt one each.
    Deal { request: DealCardsEvent },
    /// Several players share the highest score: they are to be dealt one more
    /// card each, and will be scored on all the cards that they then hold.
    Tie { request: DealCardsEvent },
    /// One player has the highest score and deals. The session's table no
    /// longer needs a dealer.
    Selected { dealer: Entity, table_id: Entity },
}

/// Whether `listed` holds exactly the identities that `wanted` admits, each once.
pub open spec fn lists_exactly(listed: Seq<Entity>, wanted: spec_fn(Entity) -> bool) -> bool {
    &&& listed.no_duplicates()
    &&& forall|id: Entity| listed.contains(id) <==> #[trigger] wanted(id)
}

/// Whether `draw` is what a round of the draw comes to in the session
/// `session_id`. Exactly one kind of outcome fits every state.
pub open spec fn decides(entities: Seq<EntityData>, session_id: Entity, draw: DealerDraw) -> bool {
    let found = session_id < entities.len() && entities[session_id as int].session is Some;
    let session = entities[session_id as int].session->0;
    let cards = session.card_ids@;
    let players = session.player_ids@;
    let all_hold_cards = forall|player: Entity|
        players.contains(player) ==> #[trigger] score(entities, cards, player) > 0;
    match draw {
        DealerDraw::SessionNotFound => !found,
        DealerDraw::TooFewPlayers => found && players.len() < 2,
        DealerDraw::Deal { request } => {
            &&& found
            &&& players.len() >= 2
            &&& request.session_id == session_id
            &&& request.player_ids@.len() > 0
            &&& lists_exactly(
                request.player_ids@,
                |player: Entity| players.contains(player) && score(entities, cards, player) == 0,
            )
        },
        DealerDraw::Tie { request } => {
            &&& found
            &&& players.len() >= 2
            &&& all_hold_cards
            &&& request.session_id == session_id
            &&& request.player_ids@.len() >= 2
            &&& score(entities, cards, request.player_ids@[0]) > 0
            &&& forall|player: Entity| #[trigger]
                score(entities, cards, player) <= score(entities, cards, request.player_ids@[0])
            &&& lists_exactly(
                request.player_ids@,
                |player: Entity|
                    score(entities, cards, player) == score(
                        entities,
                        cards,
                        request.player_ids@[0],
                    ),
            )
        },
        DealerDraw::Selected { dealer, table_id } => {
            &&& found
            &&& players.len() >= 2
            &&& all_hold_cards
            &&& table_id == session.table_id
            &&& score(entities, cards, dealer) > 0
            &&& forall|player: Entity|
                player != dealer ==> #[trigger] score(entities, cards, player) < score(
                    entities,
                    cards,
                    dealer,
                )
        },
    }
}

/// The entities after a round of the draw: a selection marks the dealer and
/// takes the need for a dealer from the table; nothing else changes anything.
pub open spec fn after_draw(entities: Seq<EntityData>, draw: DealerDraw) -> Seq<EntityData> {
    match draw {
        DealerDraw::Selected { dealer, table_id } => {
            let cleared = if table_id < entities.len() {
                entities.update(
                    table_id as int,
                    EntityData { needs_dealer: None, ..entities[table_id as int] },
                )
            } else {
                entities
            };
            if dealer < entities.len() {
                cleared.update(
                    dealer as int,
                    EntityData { dealer: Some(Dealer), ..cleared[dealer as int] },
                )
            } else {
                cleared
            }
        },
        _ => entities,
    }
}

/// A hand of `n` entities is worth at most 14 for each of them.
pub proof fn hand_value_is_bounded(
    entities: Seq<EntityData>,
    cards: Set<Entity>,
    player: Entity,
    n: int,
)
    requires
        0 <= n,
    ensures
        hand_value(entities, cards, player, n) <= 14 * n,
    decreases n,
{
    if n > 0 {
        hand_value_is_bounded(entities, cards, player, n - 1);
    }
}

/// Taking one more card into account adds what that card is worth.
pub proof fn hand_value_with_one_more_card(
    entities: Seq<EntityData>,
    cards: Set<Entity>,
    player: Entity,
    id: Entity,
    n: int,
)
    requires
        !cards.contains(id),
        0 <= n <= usize::MAX,
    ensures
        hand_value(entities, cards.insert(id), player, n) == hand_value(entities, cards, player, n)
            + (if id < n {
            card_value(entities, cards.insert(id), player, id)
        } else {
            0
        }),
    decreases n,
{
    if n > 0 {
        hand_value_with_one_more_card(entities, cards, player, id, n - 1);
    }
}

/// The score of every player who holds a card of `cards`. Only the identities
/// in `cards` are visited.
fn score_hands(world: &World, cards: &IdSet) -> (scores: IdMap)
    requires
        world.wf(),
    ensures
        forall|player: Entity| #[trigger]
            count_in(scores@, player) == score(world.entities@, cards@, player),
        forall|player: Entity| #[trigger] scores@.contains_key(player) ==> scores@[player] > 0,
{
    let ids = cards.to_vec();
    let size = world.entities.len();
    let mut scores = IdMap::new();
    let ghost mut seen: Set<Entity> = Set::empty();
    let mut k: usize = 0;
    proof {
        assert forall|player: Entity| hand_value(world.entities@, seen, player, size as int)
            == 0 by {
            nothing_seen_is_worth_nothing(world.entities@, player, size as int);
        }
    }
    while k < ids.len()
        invariant
            k <= ids@.len(),
            size == world.entities@.len(),
            size <= MAX_ENTITIES,
            ids@.no_duplicates(),
            ids@.to_set() == cards@,
            forall|x: Entity| seen.contains(x) <==> exists|j: int| 0 <= j < k && ids@[j] == x,
            forall|player: Entity| #[trigger]
                count_in(scores@, player) == hand_value(
                    world.entities@,
                    seen,
                    player,
                    size as int,
                ),
            forall|player: Entity| #[trigger] scores@.contains_key(player) ==> scores@[player] > 0,
        decreases ids@.len() - k,
    {
        let id = ids[k];
        let ghost seen_before = seen;
        let ghost scores_before = scores@;
        proof {
            assert(!seen.contains(id));
            seen = seen.insert(id);
            assert forall|x: Entity| seen.contains(x) <==> exists|j: int|
                0 <= j < k + 1 && ids@[j] == x by {
                if seen.contains(x) {
                    if x == id {
                        assert(ids@[k as int] == x);
                    } else {
                        let j = choose|j: int| 0 <= j < k && ids@[j] == x;
                        assert(ids@[j] == x);
                    }
                }
            }
            assert forall|player: Entity|
                hand_value(world.entities@, seen, player, size as int) == #[trigger] hand_value(
                    world.entities@,
                    seen_before,
                    player,
                    size as int,
                ) + (if id < size {
                    card_value(world.entities@, seen, player, id)
                } else {
                    0
                }) by {
                hand_value_with_one_more_card(
                    world.entities@,
                    seen_before,
                    player,
                    id,
                    size as int,
                );
            }
        }
        let mut owner_of_hand_card: Option<(Entity, u8)> = None;
        if id < size {
            let data = &world.entities[id];
            match data.card {
                Some(card) => {
                    if data.in_hand.is_some() {
                        match data.belongs_to_player {
                            Some(owner) => {
                                owner_of_hand_card = Some((owner.0, card.rank.value()));
                            },
                            None => {},
                        }
                    }
                },
                None => {},
            }
        }
        match owner_of_hand_card {
            Some((owner, value)) => {
                let held = match scores.get(owner) {
                    Some(held) => held,
                    None => 0,
                };
                proof {
                    assert(held == count_in(scores@, owner));
                    hand_value_is_bounded(world.entities@, seen_before, owner, size as int);
                    assert(card_value(world.entities@, seen, owner, id) == value);
                }
                scores.insert(owner, held + value as u64);
                assert forall|player: Entity| #[trigger]
                    count_in(scores@, player) == hand_value(
                        world.entities@,
                        seen,
                        player,
                        size as int,
                    ) by {
                    assert(count_in(scores_before, player) == hand_value(
                        world.entities@,
                        seen_before,
                        player,
                        size as int,
                    ));
                    if player != owner {
                        assert(card_value(world.entities@, seen, player, id) == 0);
                    }
                }
                assert forall|player: Entity| #[trigger]
                    scores@.contains_key(player) implies scores@[player] > 0 by {
                    if player != owner {
                        assert(scores_before.contains_key(player));
                    }
                }
            },
            None => {
                assert forall|player: Entity| #[trigger]
                    count_in(scores@, player) == hand_value(
                        world.entities@,
                        seen,
                        player,
                        size as int,
                    ) by {
                    assert(count_in(scores_before, player) == hand_value(
                        world.entities@,
                        seen_before,
                        player,
                        size as int,
                    ));
                    assert(card_value(world.entities@, seen, player, id) == 0);
                }
            },
        }
        k += 1;
    }
    proof {
        assert(seen =~= cards@) by {
            assert forall|x: Entity| seen.contains(x) <==> cards@.contains(x) by {
                if cards@.contains(x) {
                    assert(ids@.to_set().contains(x));
                    assert(ids@.contains(x));
                }
                if seen.contains(x) {
                    let j = choose|j: int| 0 <= j < k && ids@[j] == x;
                    assert(ids@.contains(x));
                    assert(ids@.to_set().contains(x));
                }
            }
        }
    }
    scores
}

proof fn nothing_seen_is_worth_nothing(entities: Seq<EntityData>, player: Entity, n: int)
    ensures
        hand_value(entities, Set::<Entity>::empty(), player, n) == 0,
    decreases n,
{
    if n > 0 {
        nothing_seen_is_worth_nothing(entities, player, n - 1);
    }
}

/// The players that have no score, in the order in which they are listed.
fn without_score(players: &Vec<Entity>, scores: &IdMap) -> (found: Vec<Entity>)
    requires
        players@.no_duplicates(),
    ensures
        found@.no_duplicates(),
        forall|player: Entity|
            found@.contains(player) <==> players@.contains(player) && !scores@.contains_key(
                player,
            ),
{
    let mut found: Vec<Entity> = Vec::new();
    let ghost mut source: Seq<int> = Seq::empty();
    let mut k: usize = 0;
    while k < players.len()
        invariant
            k <= players@.len(),
            players@.no_duplicates(),
            source.len() == found@.len(),
            forall|i: int|
                0 <= i < found@.len() ==> 0 <= #[trigger] source[i] < k && found@[i]
                    == players@[source[i]] && !scores@.contains_key(found@[i]),
            forall|i: int, j: int| 0 <= i < j < found@.len() ==> source[i] < source[j],
            forall|j: int|
                0 <= j < k && !scores@.contains_key(#[trigger] players@[j]) ==> found@.contains(
                    players@[j],
                ),
        decreases players@.len() - k,
    {
        let player = players[k];
        if scores.get(player).is_none() {
            let ghost before = found@;
            found.push(player);
            proof {
                source = source.push(k as int);
                assert(found@[before.len() as int] == player);
                assert forall|j: int|
                    0 <= j < k + 1 && !scores@.contains_key(
                        #[trigger] players@[j],
                    ) implies found@.contains(players@[j]) by {
                    if j < k {
                        assert(before.contains(players@[j]));
                        let i = choose|i: int| 0 <= i < before.len() && before[i] == players@[j];
                        assert(found@[i] == players@[j]);
                    }
                }
            }
        }
        k += 1;
    }
    proof {
        assert forall|i: int, j: int| 0 <= i < j < found@.len() implies found@[i] != found@[j] by {
            assert(source[i] < source[j]);
        }
        assert forall|player: Entity|
            found@.contains(player) <==> players@.contains(player) && !scores@.contains_key(
                player,
            ) by {
            if found@.contains(player) {
                let i = choose|i: int| 0 <= i < found@.len() && found@[i] == player;
                assert(players@[source[i]] == player);
            }
            if players@.contains(player) && !scores@.contains_key(player) {
                let j = choose|j: int| 0 <= j < players@.len() && players@[j] == player;
                assert(found@.contains(players@[j]));
            }
        }
    }
    found
}

/// The highest of the scores.
fn highest(entries: &Vec<(Entity, u64)>) -> (best: u64)
    requires
        entries@.len() > 0,
    ensures
        forall|i: int| 0 <= i < entries@.len() ==> (#[trigger] entries@[i]).1 <= best,
        exists|i: int| 0 <= i < entries@.len() && (#[trigger] entries@[i]).1 == best,
{
    let mut best = entries[0].1;
    let mut k: usize = 1;
    while k < entries.len()
        invariant
            1 <= k <= entries@.len(),
            forall|i: int| 0 <= i < k ==> (#[trigger] entries@[i]).1 <= best,
            exists|i: int| 0 <= i < k && (#[trigger] entries@[i]).1 == best,
        decreases entries@.len() - k,
    {
        if entries[k].1 > best {
            best = entries[k].1;
        }
        k += 1;
    }
    best
}

/// The players whose score is `wanted`, in the order in which they are listed.
fn with_score(entries: &Vec<(Entity, u64)>, wanted: u64) -> (found: Vec<Entity>)
    requires
        forall|i: int, j: int| 0 <= i < j < entries@.len() ==> entries@[i].0 != entries@[j].0,
    ensures
        found@.no_duplicates(),
        forall|player: Entity|
            found@.contains(player) <==> exists|i: int|
                0 <= i < entries@.len() && #[trigger] entries@[i] == (player, wanted),
{
    let mut found: Vec<Entity> = Vec::new();
    let ghost mut source: Seq<int> = Seq::empty();
    let mut k: usize = 0;
    while k < entries.len()
        invariant
            k <= entries@.len(),
            forall|i: int, j: int| 0 <= i < j < entries@.len() ==> entries@[i].0 != entries@[j].0,
            source.len() == found@.len(),
            forall|i: int|
                0 <= i < found@.len() ==> 0 <= #[trigger] source[i] < k && entries@[source[i]] == (
                    found@[i],
                    wanted,
                ),
            forall|i: int, j: int| 0 <= i < j < found@.len() ==> source[i] < source[j],
            forall|j: int|
                0 <= j < k && (#[trigger] entries@[j]).1 == wanted ==> found@.contains(
                    entries@[j].0,
                ),
        decreases entries@.len() - k,
    {
        if entries[k].1 == wanted {
            let ghost before = found@;
            found.push(entries[k].0);
            proof {
                source = source.push(k as int);
                assert(found@[before.len() as int] == entries@[k as int].0);
                assert forall|j: int|
                    0 <= j < k + 1 && (#[trigger] entries@[j]).1 == wanted implies found@.contains(
                    entries@[j].0,
                ) by {
                    if j < k {
                        assert(before.contains(entries@[j].0));
                        let i = choose|i: int| 0 <= i < before.len() && before[i] == entries@[j].0;
                        assert(found@[i] == entries@[j].0);
                    }
                }
            }
        }
        k += 1;
    }
    proof {
        assert forall|i: int, j: int| 0 <= i < j < found@.len() implies found@[i] != found@[j] by {
            assert(source[i] < source[j]);
            assert(entries@[source[i]].0 != entries@[source[j]].0);
        }
        assert forall|player: Entity|
            found@.contains(player) <==> exists|i: int|
                0 <= i < entries@.len() && #[trigger] entries@[i] == (player, wanted) by {
            if found@.contains(player) {
                let i = choose|i: int| 0 <= i < found@.len() && found@[i] == player;
                assert(entries@[source[i]] == (player, wanted));
            }
            if exists|i: int| 0 <= i < entries@.len() && #[trigger] entries@[i] == (player, wanted) {
                let j = choose|j: int|
                    0 <= j < entries@.len() && #[trigger] entries@[j] == (player, wanted);
                assert(found@.contains(entries@[j].0));
            }
        }
    }
    found
}

/// One round of the draw in one session. The players without a card are asked
/// to be dealt one. If there are none, the hands are scored: a player who alone
/// has the highest score becomes the dealer and the session's table no longer
/// needs one; players tied for the highest score are asked to be dealt another
/// card. The cards that a tied player holds stay in the hand, and the cards of
/// the others do too.
pub fn draw_for_dealer(world: &mut World, session_id: Entity) -> (draw: DealerDraw)
    requires
        old(world).wf(),
    ensures
        decides(old(world).entities@, session_id, draw),
        final(world).entities@ == after_draw(old(world).entities@, draw),
        final(world).wf(),
        old(world).placements_exclusive() ==> final(world).placements_exclusive(),
        old(world).cards_in_play() ==> final(world).cards_in_play(),
{
    let size = world.entities.len();
    if session_id >= size {
        return DealerDraw::SessionNotFound;
    }
    let (seats, players, scores, table_id) = match &world.entities[session_id].session {
        Some(session) => (
            session.player_ids.len(),
            session.player_ids.to_vec(),
            score_hands(world, &session.card_ids),
            session.table_id,
        ),
        None => {
            return DealerDraw::SessionNotFound;
        },
    };
    if seats < 2 {
        return DealerDraw::TooFewPlayers;
    }
    let ghost before = world.entities@;
    let ghost cards = before[session_id as int].session->0.card_ids@;
    let ghost members = before[session_id as int].session->0.player_ids@;
    let empty_handed = without_score(&players, &scores);
    proof {
        assert forall|player: Entity|
            empty_handed@.contains(player) <==> members.contains(player) && score(
                before,
                cards,
                player,
            ) == 0 by {
            assert(count_in(scores@, player) == score(before, cards, player));
            assert(players@.contains(player) <==> players@.to_set().contains(player));
        }
    }
    if empty_handed.len() > 0 {
        return DealerDraw::Deal {
            request: DealCardsEvent { session_id, player_ids: empty_handed },
        };
    }
    proof {
        vstd::seq_lib::seq_to_set_is_finite(players@);
        players@.unique_seq_to_set();
        assert(players@.len() >= 2);
        assert forall|player: Entity| members.contains(player) implies #[trigger] score(
            before,
            cards,
            player,
        ) > 0 by {
            assert(count_in(scores@, player) == score(before, cards, player));
            assert(!empty_handed@.contains(player));
        }
        assert(players@.contains(players@[0]));
        assert(members.contains(players@[0]));
        assert(score(before, cards, players@[0]) > 0);
        assert(count_in(scores@, players@[0]) > 0);
        assert(scores@.contains_key(players@[0]));
    }
    let entries = scores.to_vec();
    let best = highest(&entries);
    let winners = with_score(&entries, best);
    proof {
        let top = choose|i: int| 0 <= i < entries@.len() && (#[trigger] entries@[i]).1 == best;
        assert(scores@.contains_pair(entries@[top].0, entries@[top].1));
        assert(best > 0);
        assert forall|player: Entity| #[trigger] score(before, cards, player) <= best by {
            assert(count_in(scores@, player) == score(before, cards, player));
            if scores@.contains_key(player) {
                let i = choose|i: int|
                    0 <= i < entries@.len() && (#[trigger] entries@[i]).0 == player;
                assert(scores@.contains_pair(entries@[i].0, entries@[i].1));
            }
        }
        assert forall|player: Entity|
            winners@.contains(player) <==> score(before, cards, player) == best by {
            assert(count_in(scores@, player) == score(before, cards, player));
            if winners@.contains(player) {
                let i = choose|i: int|
                    0 <= i < entries@.len() && #[trigger] entries@[i] == (player, best);
                assert(scores@.contains_pair(entries@[i].0, entries@[i].1));
            }
            if score(before, cards, player) == best {
                assert(scores@.contains_key(player));
                let i = choose|i: int|
                    0 <= i < entries@.len() && (#[trigger] entries@[i]).0 == player;
                assert(scores@.contains_pair(entries@[i].0, entries@[i].1));
                assert(entries@[i] == (player, best));
            }
        }
        assert(entries@[top] == (entries@[top].0, best));
        assert(winners@.contains(entries@[top].0));
        assert(winners@.len() > 0);
        assert(winners@.contains(winners@[0]));
    }
    if winners.len() == 1 {
        let dealer = winners[0];
        if table_id < size {
            world.entities[table_id].needs_dealer = None;
        }
        if dealer < size {
            world.entities[dealer].dealer = Some(Dealer);
        }
        proof {
            assert forall|player: Entity| player != dealer implies #[trigger] score(
                before,
                cards,
                player,
            ) < score(before, cards, dealer) by {
                if score(before, cards, player) == best {
                    assert(winners@.contains(player));
                    let i = choose|i: int| 0 <= i < winners@.len() && winners@[i] == player;
                }
            }
            assert(world.entities@ =~= after_draw(
                before,
                DealerDraw::Selected { dealer, table_id },
            ));
        }
        return DealerDraw::Selected { dealer, table_id };
    }
    DealerDraw::Tie { request: DealCardsEvent { session_id, player_ids: winners } }
}

/// One round of the draw at one table.
pub struct DealerRound {
    /// The table that needed a dealer.
    pub table_id: Entity,
    /// The session that the table belongs to.
    pub session_id: Entity,
    /// What the round came to.
    pub draw: DealerDraw,
}

/// Whether `id` names a table that needs a dealer and belongs to a session.
pub open spec fn needs_round(entities: Seq<EntityData>, id: Entity) -> bool {
    &&& id < entities.len()
    &&& entities[id as int].table is Some
    &&& entities[id as int].needs_dealer is Some
    &&& entities[id as int].session_ref is Some
}

/// Whether `rounds` has a round for the table `id`.
pub open spec fn has_round(rounds: Seq<DealerRound>, id: Entity) -> bool {
    exists|k: int| 0 <= k < rounds.len() && (#[trigger] rounds[k]).table_id == id
}

/// The entities after the first `k` rounds, one after the other.
pub open spec fn after_rounds(entities: Seq<EntityData>, rounds: Seq<DealerRound>, k: int) -> Seq<
    EntityData,
>
    decreases k,
{
    if k <= 0 {
        entities
    } else {
        after_draw(after_rounds(entities, rounds, k - 1), rounds[k - 1].draw)
    }
}

proof fn after_rounds_reads_a_prefix(
    entities: Seq<EntityData>,
    shorter: Seq<DealerRound>,
    longer: Seq<DealerRound>,
    k: int,
)
    requires
        k <= shorter.len() <= longer.len(),
        forall|j: int| 0 <= j < shorter.len() ==> shorter[j] == longer[j],
    ensures
        after_rounds(entities, shorter, k) == after_rounds(entities, longer, k),
        after_rounds(entities, shorter, k).len() == entities.len(),
    decreases k,
{
    if k > 0 {
        after_rounds_reads_a_prefix(entities, shorter, longer, k - 1);
    }
}

/// The tables that need a dealer, by rising identity, each with its session.
fn tables_needing_dealer(world: &World) -> (tables: Vec<(Entity, Entity)>)
    ensures
        forall|i: int, j: int| 0 <= i < j < tables@.len() ==> tables@[i].0 < tables@[j].0,
        forall|i: int|
            0 <= i < tables@.len() ==> {
                let table = #[trigger] tables@[i];
                &&& needs_round(world.entities@, table.0)
                &&& world.entities@[table.0 as int].session_ref == Some(SessionRef(table.1))
            },
        forall|id: Entity| #[trigger]
            needs_round(world.entities@, id) ==> exists|i: int|
                0 <= i < tables@.len() && (#[trigger] tables@[i]).0 == id,
{
    let mut tables: Vec<(Entity, Entity)> = Vec::new();
    let size = world.entities.len();
    let mut id: usize = 0;
    while id < size
        invariant
            id <= size,
            size == world.entities@.len(),
            forall|i: int, j: int| 0 <= i < j < tables@.len() ==> tables@[i].0 < tables@[j].0,
            forall|i: int|
                0 <= i < tables@.len() ==> {
                    let table = #[trigger] tables@[i];
                    &&& table.0 < id
                    &&& needs_round(world.entities@, table.0)
                    &&& world.entities@[table.0 as int].session_ref == Some(SessionRef(table.1))
                },
            forall|e: Entity|
                e < id && #[trigger] needs_round(world.entities@, e) ==> exists|i: int|
                    0 <= i < tables@.len() && (#[trigger] tables@[i]).0 == e,
        decreases size - id,
    {
        let data = &world.entities[id];
        if data.table.is_some() && data.needs_dealer.is_some() {
            match data.session_ref {
                Some(session_ref) => {
                    let ghost before = tables@;
                    tables.push((id, session_ref.0));
                    assert forall|e: Entity|
                        e < id + 1 && #[trigger] needs_round(
                            world.entities@,
                            e,
                        ) implies exists|i: int|
                        0 <= i < tables@.len() && (#[trigger] tables@[i]).0 == e by {
                        if e < id {
                            let i = choose|i: int|
                                0 <= i < before.len() && (#[trigger] before[i]).0 == e;
                            assert(tables@[i].0 == e);
                        } else {
                            assert(tables@[before.len() as int].0 == e);
                        }
                    }
                },
                None => {},
            }
        }
        id += 1;
    }
    tables
}

/// Runs one round of the draw for every table that needs a dealer, the tables
/// by rising identity. Which tables need one is settled before the first round,
/// and every round is decided on the hands as they are before the first round:
/// no round changes them.
pub fn handle_tables_needing_dealer(world: &mut World) -> (rounds: Vec<DealerRound>)
    requires
        old(world).wf(),
    ensures
        forall|i: int, j: int|
            0 <= i < j < rounds@.len() ==> rounds@[i].table_id < rounds@[j].table_id,
        forall|id: Entity| needs_round(old(world).entities@, id) <==> has_round(rounds@, id),
        forall|k: int|
            0 <= k < rounds@.len() ==> {
                let round = #[trigger] rounds@[k];
                &&& old(world).entities@[round.table_id as int].session_ref == Some(
                    SessionRef(round.session_id),
                )
                &&& decides(old(world).entities@, round.session_id, round.draw)
            },
        final(world).entities@ == after_rounds(old(world).entities@, rounds@, rounds@.len() as int),
        final(world).wf(),
        old(world).placements_exclusive() ==> final(world).placements_exclusive(),
        old(world).cards_in_play() ==> final(world).cards_in_play(),
{
    let ghost before = world.entities@;
    let tables = tables_needing_dealer(world);
    let mut rounds: Vec<DealerRound> = Vec::new();
    let mut k: usize = 0;
    while k < tables.len()
        invariant
            k <= tables@.len(),
            rounds@.len() == k,
            world.wf(),
            before == old(world).entities@,
            world.entities@ == after_rounds(before, rounds@, k as int),
            old(world).placements_exclusive() ==> world.placements_exclusive(),
            old(world).cards_in_play() ==> world.cards_in_play(),
            forall|j: int| 0 <= j < k ==> (#[trigger] rounds@[j]).table_id == tables@[j].0,
            forall|j: int|
                0 <= j < k ==> {
                    let round = #[trigger] rounds@[j];
                    &&& round.session_id == tables@[j].1
                    &&& decides(after_rounds(before, rounds@, j), round.session_id, round.draw)
                },
        decreases tables@.len() - k,
    {
        let ghost earlier = rounds@;
        let table_id = tables[k].0;
        let session_id = tables[k].1;
        let draw = draw_for_dealer(world, session_id);
        rounds.push(DealerRound { table_id, session_id, draw });
        proof {
            assert forall|j: int| 0 <= j <= k implies after_rounds(before, rounds@, j)
                == after_rounds(before, earlier, j) by {
                after_rounds_reads_a_prefix(before, earlier, rounds@, j);
            }
            assert(rounds@[k as int].draw == draw);
            assert(after_rounds(before, rounds@, k + 1) == after_draw(
                after_rounds(before, rounds@, k as int),
                rounds@[k as int].draw,
            ));
        }
        k += 1;
    }
    proof {
        assert forall|id: Entity| needs_round(before, id) <==> has_round(rounds@, id) by {
            if needs_round(before, id) {
                let i = choose|i: int| 0 <= i < tables@.len() && (#[trigger] tables@[i]).0 == id;
                assert(rounds@[i].table_id == id);
            }
            if has_round(rounds@, id) {
                let i = choose|i: int| 0 <= i < rounds@.len() && (#[trigger] rounds@[i]).table_id == id;
                assert(tables@[i].0 == id);
            }
        }
        assert forall|k: int| 0 <= k < rounds@.len() implies {
            let round = #[trigger] rounds@[k];
            &&& before[round.table_id as int].session_ref == Some(SessionRef(round.session_id))
            &&& decides(before, round.session_id, round.draw)
        } by {
            assert(rounds@[k].table_id == tables@[k].0);
            assert(needs_round(before, tables@[k].0));
            rounds_keep_the_hands(before, rounds@, k);
            the_hands_decide_the_draw(
                after_rounds(before, rounds@, k),
                before,
                rounds@[k].session_id,
                rounds@[k].draw,
            );
        }
    }
    rounds
}

/// Whether two outcomes of a round say the same: they are of one kind, name the
/// same dealer and table, and ask for a deal to the same players of the same
/// session. The order in which the players are listed may differ.
pub open spec fn same_outcome(a: DealerDraw, b: DealerDraw) -> bool {
    match (a, b) {
        (DealerDraw::SessionNotFound, DealerDraw::SessionNotFound) => true,
        (DealerDraw::TooFewPlayers, DealerDraw::TooFewPlayers) => true,
        (DealerDraw::Deal { request: first }, DealerDraw::Deal { request: second }) => {
            &&& first.session_id == second.session_id
            &&& first.player_ids@.to_set() == second.player_ids@.to_set()
        },
        (DealerDraw::Tie { request: first }, DealerDraw::Tie { request: second }) => {
            &&& first.session_id == second.session_id
            &&& first.player_ids@.to_set() == second.player_ids@.to_set()
        },
        (
            DealerDraw::Selected { dealer: first, table_id: first_table },
            DealerDraw::Selected { dealer: second, table_id: second_table },
        ) => first == second && first_table == second_table,
        _ => false,
    }
}

/// The state of a session decides the outcome of a round: two outcomes that fit
/// the same state say the same.
pub proof fn the_state_decides_the_draw(
    entities: Seq<EntityData>,
    session_id: Entity,
    a: DealerDraw,
    b: DealerDraw,
)
    requires
        decides(entities, session_id, a),
        decides(entities, session_id, b),
    ensures
        same_outcome(a, b),
{
    let session = entities[session_id as int].session->0;
    let cards = session.card_ids@;
    let players = session.player_ids@;
    match (a, b) {
        (DealerDraw::Deal { request: first }, DealerDraw::Deal { request: second }) => {
            assert(first.player_ids@.to_set() =~= second.player_ids@.to_set()) by {
                let wanted = |player: Entity|
                    players.contains(player) && score(entities, cards, player) == 0;
                assert forall|id: Entity|
                    first.player_ids@.contains(id) <==> second.player_ids@.contains(id) by {
                    assert(first.player_ids@.contains(id) <==> wanted(id));
                    assert(second.player_ids@.contains(id) <==> wanted(id));
                }
            }
        },
        (DealerDraw::Deal { request }, DealerDraw::Tie { .. })
        | (DealerDraw::Deal { request }, DealerDraw::Selected { .. })
        | (DealerDraw::Tie { .. }, DealerDraw::Deal { request })
        | (DealerDraw::Selected { .. }, DealerDraw::Deal { request }) => {
            let wanted = |player: Entity|
                players.contains(player) && score(entities, cards, player) == 0;
            let empty_handed = request.player_ids@[0];
            assert(request.player_ids@.contains(empty_handed));
            assert(wanted(empty_handed));
            assert(score(entities, cards, empty_handed) > 0);
        },
        (DealerDraw::Tie { request: first }, DealerDraw::Tie { request: second }) => {
            let first_best = first.player_ids@[0];
            let second_best = second.player_ids@[0];
            assert(score(entities, cards, first_best) <= score(entities, cards, second_best));
            assert(score(entities, cards, second_best) <= score(entities, cards, first_best));
            assert(first.player_ids@.to_set() =~= second.player_ids@.to_set()) by {
                let wanted_first = |player: Entity|
                    score(entities, cards, player) == score(entities, cards, first_best);
                let wanted_second = |player: Entity|
                    score(entities, cards, player) == score(entities, cards, second_best);
                assert forall|id: Entity|
                    first.player_ids@.contains(id) <==> second.player_ids@.contains(id) by {
                    assert(first.player_ids@.contains(id) <==> wanted_first(id));
                    assert(second.player_ids@.contains(id) <==> wanted_second(id));
                }
            }
        },
        (DealerDraw::Tie { request }, DealerDraw::Selected { dealer, .. })
        | (DealerDraw::Selected { dealer, .. }, DealerDraw::Tie { request }) => {
            let best = request.player_ids@[0];
            let wanted = |player: Entity|
                score(entities, cards, player) == score(entities, cards, best);
            let other = if request.player_ids@[0] == dealer {
                request.player_ids@[1]
            } else {
                request.player_ids@[0]
            };
            assert(request.player_ids@.contains(request.player_ids@[0]));
            assert(request.player_ids@.contains(request.player_ids@[1]));
            assert(request.player_ids@.contains(other));
            assert(wanted(other));
            assert(other != dealer);
            assert(score(entities, cards, other) < score(entities, cards, dealer));
            assert(score(entities, cards, dealer) <= score(entities, cards, best));
        },
        (
            DealerDraw::Selected { dealer: first, .. },
            DealerDraw::Selected { dealer: second, .. },
        ) => {
            if first != second {
                assert(score(entities, cards, first) < score(entities, cards, second));
                assert(score(entities, cards, second) < score(entities, cards, first));
            }
        },
        _ => {},
    }
}

/// A round of the draw changes nothing that the scores depend on: cards, hands
/// and owners stay, and so do sessions, players and tables. It touches the mark
/// of the dealer and the table's need for one, and only where a player alone
/// has the highest score.
pub proof fn the_draw_keeps_the_hands(entities: Seq<EntityData>, draw: DealerDraw)
    ensures
        after_draw(entities, draw).len() == entities.len(),
        forall|id: int|
            0 <= id < entities.len() ==> {
                let data = entities[id];
                let next = #[trigger] after_draw(entities, draw)[id];
                next == (EntityData { dealer: next.dealer, needs_dealer: next.needs_dealer, ..data })
            },
        !(draw is Selected) ==> after_draw(entities, draw) == entities,
{
}

/// Whether two states agree on all that a round of the draw reads: the sessions,
/// the cards, which of them are in a hand, and who owns them.
pub open spec fn same_hands(a: Seq<EntityData>, b: Seq<EntityData>) -> bool {
    &&& a.len() == b.len()
    &&& forall|id: int|
        0 <= id < a.len() ==> {
            &&& (#[trigger] a[id]).session == b[id].session
            &&& a[id].card == b[id].card
            &&& a[id].in_hand is Some <==> b[id].in_hand is Some
            &&& a[id].belongs_to_player == b[id].belongs_to_player
        }
}

/// States that agree on the hands give every player the same score.
pub proof fn scores_read_the_hands(
    a: Seq<EntityData>,
    b: Seq<EntityData>,
    cards: Set<Entity>,
    player: Entity,
    n: int,
)
    requires
        same_hands(a, b),
        n <= a.len(),
    ensures
        hand_value(a, cards, player, n) == hand_value(b, cards, player, n),
    decreases n,
{
    if n > 0 {
        scores_read_the_hands(a, b, cards, player, n - 1);
        assert(a[n - 1].session == b[n - 1].session);
    }
}

/// A round of the draw is decided by the hands alone: an outcome that fits one
/// state fits every state that agrees with it on the hands.
pub proof fn the_hands_decide_the_draw(
    a: Seq<EntityData>,
    b: Seq<EntityData>,
    session_id: Entity,
    draw: DealerDraw,
)
    requires
        same_hands(a, b),
        decides(a, session_id, draw),
    ensures
        decides(b, session_id, draw),
{
    if session_id < a.len() {
        assert(a[session_id as int].session == b[session_id as int].session);
    }
    let session = a[session_id as int].session->0;
    let cards = session.card_ids@;
    let players = session.player_ids@;
    assert forall|player: Entity| score(a, cards, player) == #[trigger] score(b, cards, player) by {
        scores_read_the_hands(a, b, cards, player, a.len() as int);
    }
    match draw {
        DealerDraw::Deal { request } => {
            let wanted = |player: Entity| players.contains(player) && score(a, cards, player) == 0;
            let wanted_too = |player: Entity|
                players.contains(player) && score(b, cards, player) == 0;
            assert forall|id: Entity|
                request.player_ids@.contains(id) <==> #[trigger] wanted_too(id) by {
                assert(request.player_ids@.contains(id) <==> wanted(id));
                assert(score(a, cards, id) == score(b, cards, id));
            }
        },
        DealerDraw::Tie { request } => {
            let best = request.player_ids@[0];
            let wanted = |player: Entity| score(a, cards, player) == score(a, cards, best);
            let wanted_too = |player: Entity| score(b, cards, player) == score(b, cards, best);
            assert(score(a, cards, best) == score(b, cards, best));
            assert forall|id: Entity|
                request.player_ids@.contains(id) <==> #[trigger] wanted_too(id) by {
                assert(request.player_ids@.contains(id) <==> wanted(id));
                assert(score(a, cards, id) == score(b, cards, id));
            }
            assert forall|player: Entity| #[trigger]
                score(b, cards, player) <= score(b, cards, best) by {
                assert(score(a, cards, player) <= score(a, cards, best));
            }
            assert forall|player: Entity| players.contains(player) implies #[trigger] score(
                b,
                cards,
                player,
            ) > 0 by {
                assert(score(a, cards, player) > 0);
            }
        },
        DealerDraw::Selected { dealer, table_id } => {
            assert(score(a, cards, dealer) == score(b, cards, dealer));
            assert forall|player: Entity| player != dealer implies #[trigger] score(
                b,
                cards,
                player,
            ) < score(b, cards, dealer) by {
                assert(score(a, cards, player) < score(a, cards, dealer));
            }
            assert forall|player: Entity| players.contains(player) implies #[trigger] score(
                b,
                cards,
                player,
            ) > 0 by {
                assert(score(a, cards, player) > 0);
            }
        },
        _ => {},
    }
}

/// The rounds of a tick leave the hands as they were.
pub proof fn rounds_keep_the_hands(entities: Seq<EntityData>, rounds: Seq<DealerRound>, k: int)
    ensures
        same_hands(entities, after_rounds(entities, rounds, k)),
        same_hands(after_rounds(entities, rounds, k), entities),
    decreases k,
{
    if k > 0 {
        rounds_keep_the_hands(entities, rounds, k - 1);
        the_draw_keeps_the_hands(after_rounds(entities, rounds, k - 1), rounds[k - 1].draw);
        let earlier = after_rounds(entities, rounds, k - 1);
        let later = after_rounds(entities, rounds, k);
        assert forall|id: int| 0 <= id < entities.len() implies {
            &&& (#[trigger] later[id]).session == entities[id].session
            &&& later[id].card == entities[id].card
            &&& later[id].in_hand is Some <==> entities[id].in_hand is Some
            &&& later[id].belongs_to_player == entities[id].belongs_to_player
        } by {
            assert(earlier[id].session == entities[id].session);
        }
    }
}

} // verus!
