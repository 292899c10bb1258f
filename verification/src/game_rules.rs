//! Rules of a game session on the server: which id a new player gets, and who lost or won
//! once entities died.
use vstd::prelude::*;
use crate::protocol::{PlayerId, EntityId};

verus! {

/// The ids are in strictly increasing order, as the keys of an ordered map are.
pub open spec fn strictly_increasing(ids: Seq<PlayerId>) -> bool {
    forall|i: int, j: int| 0 <= i < j < ids.len() ==> ids[i].0 < ids[j].0
}

/// How many of the ids, from the first on, are 1, 2, 3, ... in turn.
pub open spec fn numbered_prefix(ids: Seq<PlayerId>) -> nat
    decreases ids.len(),
{
    if ids.len() == 0 {
        0
    } else {
        let p = numbered_prefix(ids.drop_last());
        if p == ids.len() - 1 && ids.last().0 == ids.len() {
            ids.len()
        } else {
            p
        }
    }
}

proof fn lemma_numbered_prefix(ids: Seq<PlayerId>)
    requires
        strictly_increasing(ids),
    ensures
        numbered_prefix(ids) <= ids.len(),
        forall|i: int| 0 <= i < numbered_prefix(ids) ==> #[trigger] ids[i].0 == i + 1,
        numbered_prefix(ids) < ids.len() ==> ids[numbered_prefix(ids) as int].0 != numbered_prefix(ids) + 1,
    decreases ids.len(),
{
    if ids.len() > 0 {
        let rest = ids.drop_last();
        assert(strictly_increasing(rest));
        lemma_numbered_prefix(rest);
        assert forall|i: int| 0 <= i < rest.len() implies #[trigger] ids[i] == rest[i] by {}
    }
}

/// Find the next available player id: the first of 1, 2, 3, ... that the players, in order of
/// their ids, do not take in turn.
pub fn next_player_id(players: &[PlayerId]) -> (id: PlayerId)
    requires
        strictly_increasing(players@),
        players@.len() < u32::MAX,
    ensures
        id.0 == numbered_prefix(players@) + 1,
{
    proof {
        lemma_numbered_prefix(players@);
    }
    let mut id: u32 = 1;
    let mut i: usize = 0;
    while i < players.len()
        invariant_except_break
            i <= players@.len(),
            id == i + 1,
            players@.len() < u32::MAX,
            strictly_increasing(players@),
            forall|j: int| 0 <= j < i ==> #[trigger] players@[j].0 == j + 1,
            i == players@.len() ==> numbered_prefix(players@) == i,
        ensures
            id == numbered_prefix(players@) + 1,
        decreases players@.len() - i,
    {
        if players[i].0 == id {
            id = id + 1;
            i = i + 1;
            proof {
                if i == players@.len() {
                    lemma_numbered_prefix_at(players@, i as int);
                }
            }
        } else {
            proof {
                lemma_numbered_prefix_at(players@, i as int);
            }
            break;
        }
    }
    PlayerId(id)
}

proof fn lemma_numbered_prefix_at(ids: Seq<PlayerId>, i: int)
    requires
        strictly_increasing(ids),
        0 <= i <= ids.len(),
        forall|j: int| 0 <= j < i ==> #[trigger] ids[j].0 == j + 1,
        i < ids.len() ==> ids[i].0 != i + 1,
    ensures
        numbered_prefix(ids) == i,
{
    lemma_numbered_prefix(ids);
    let p = numbered_prefix(ids) as int;
    if p < i {
        assert(ids[p].0 == p + 1);
    } else if p > i {
        assert(ids[i].0 == i + 1);
    }
}

/// The id given to a new player is free: no player has it, as long as every id in use was
/// handed out this way (none is 0).
pub proof fn lemma_next_player_id_is_free(ids: Seq<PlayerId>)
    requires
        strictly_increasing(ids),
        forall|i: int| 0 <= i < ids.len() ==> #[trigger] ids[i].0 >= 1,
    ensures
        numbered_prefix(ids) + 1 >= 1,
        forall|i: int| 0 <= i < ids.len() ==> #[trigger] ids[i].0 != numbered_prefix(ids) + 1,
{
    lemma_numbered_prefix(ids);
    let p = numbered_prefix(ids) as int;
    assert forall|i: int| 0 <= i < ids.len() implies #[trigger] ids[i].0 != p + 1 by {
        if i < p {
        } else if i == p {
        } else {
            if p > 0 {
                assert(ids[p - 1].0 == p);
                assert(ids[p - 1].0 < ids[p].0);
            }
            assert(ids[p].0 < ids[i].0);
            assert(ids[p].0 != p + 1);
            assert(ids[p].0 >= p + 1) by {
                if p > 0 {
                    assert(ids[p - 1].0 < ids[p].0);
                } else {
                    assert(ids[0].0 >= 1);
                }
            }
        }
    }
}

/// The player has died: its entity is among the dead ones.
pub open spec fn is_dead(player: (PlayerId, EntityId), dead: Seq<EntityId>) -> bool {
    dead.contains(player.1)
}

/// The players whose entities died, in order.
pub open spec fn losers(players: Seq<(PlayerId, EntityId)>, dead: Seq<EntityId>) -> Seq<PlayerId>
    decreases players.len(),
{
    if players.len() == 0 {
        Seq::empty()
    } else {
        let rest = losers(players.drop_last(), dead);
        if is_dead(players.last(), dead) { rest.push(players.last().0) } else { rest }
    }
}

/// The players whose entities are alive, in order.
pub open spec fn survivors(players: Seq<(PlayerId, EntityId)>, dead: Seq<EntityId>) -> Seq<PlayerId>
    decreases players.len(),
{
    if players.len() == 0 {
        Seq::empty()
    } else {
        let rest = survivors(players.drop_last(), dead);
        if is_dead(players.last(), dead) { rest } else { rest.push(players.last().0) }
    }
}

proof fn lemma_losers_survivors_len(players: Seq<(PlayerId, EntityId)>, dead: Seq<EntityId>)
    ensures
        losers(players, dead).len() + survivors(players, dead).len() == players.len(),
    decreases players.len(),
{
    if players.len() > 0 {
        lemma_losers_survivors_len(players.drop_last(), dead);
    }
}

/// The outcome of a round in which the entities `dead` died: the players who lost, in order of
/// their ids, and the winner, when a single player is left after at least one lost.
pub open spec fn outcome(players: Seq<(PlayerId, EntityId)>, dead: Seq<EntityId>) -> (Seq<PlayerId>, Option<PlayerId>) {
    let l = losers(players, dead);
    let s = survivors(players, dead);
    if l.len() > 0 && s.len() == 1 { (l, Some(s[0])) } else { (l, None) }
}

/// Whether the entity is among the dead ones.
fn contains_entity(dead: &[EntityId], entity: EntityId) -> (r: bool)
    ensures
        r == dead@.contains(entity),
{
    let mut i: usize = 0;
    while i < dead.len()
        invariant
            i <= dead@.len(),
            forall|j: int| 0 <= j < i ==> dead@[j] != entity,
        decreases dead@.len() - i,
    {
        if dead[i] == entity {
            return true;
        }
        i = i + 1;
    }
    false
}

/// Check if any player has won or lost: the players whose entities died lose, in order of their
/// ids; when this leaves a single player, that player wins. When every one of two or more
/// players died at once, no outcome is defined.
pub fn game_over(players: &[(PlayerId, EntityId)], dead: &[EntityId]) -> (r: (Vec<PlayerId>, Option<PlayerId>))
    requires
        players@.len() >= 2 ==> losers(players@, dead@).len() < players@.len(),
    ensures
        (r.0@, r.1) == outcome(players@, dead@),
{
    let mut lost: Vec<PlayerId> = Vec::new();
    let mut alive: Vec<PlayerId> = Vec::new();
    let mut i: usize = 0;
    while i < players.len()
        invariant
            i <= players@.len(),
            lost@ == losers(players@.take(i as int), dead@),
            alive@ == survivors(players@.take(i as int), dead@),
        decreases players@.len() - i,
    {
        let (player, entity) = players[i];
        proof {
            assert(players@.take(i + 1).drop_last() =~= players@.take(i as int));
        }
        if contains_entity(dead, entity) {
            lost.push(player);
        } else {
            alive.push(player);
        }
        i = i + 1;
    }
    proof {
        assert(players@.take(i as int) =~= players@);
    }
    let winner = if lost.len() > 0 && alive.len() == 1 {
        Some(alive[0])
    } else {
        None
    };
    (lost, winner)
}

/// A round has at most one winner, who did not lose, and never takes the last player: a winner
/// is left only when everyone else lost.
pub proof fn lemma_winner_is_last_survivor(players: Seq<(PlayerId, EntityId)>, dead: Seq<EntityId>)
    ensures
        outcome(players, dead).1 matches Some(w) ==> losers(players, dead).len() + 1 == players.len()
            && survivors(players, dead) == seq![w],
{
    lemma_losers_survivors_len(players, dead);
    if outcome(players, dead).1 is Some {
        assert(survivors(players, dead) =~= seq![survivors(players, dead)[0]]);
    }
}

proof fn lemma_no_losers(players: Seq<(PlayerId, EntityId)>, dead: Seq<EntityId>)
    ensures
        losers(players, dead).len() == 0 <==> forall|i: int| 0 <= i < players.len() ==> !dead.contains(
            #[trigger] players[i].1,
        ),
    decreases players.len(),
{
    if players.len() > 0 {
        let rest = players.drop_last();
        lemma_no_losers(rest, dead);
        if losers(players, dead).len() == 0 {
            assert forall|i: int| 0 <= i < players.len() implies !dead.contains(#[trigger] players[i].1) by {
                if i < rest.len() {
                    assert(players[i] == rest[i]);
                }
            }
        } else if forall|i: int| 0 <= i < players.len() ==> !dead.contains(#[trigger] players[i].1) {
            assert(!dead.contains(players[players.len() - 1].1));
            assert forall|i: int| 0 <= i < rest.len() implies !dead.contains(#[trigger] rest[i].1) by {
                assert(players[i] == rest[i]);
            }
        }
    }
}

/// Nobody wins before somebody loses: a round in which none of the players' entities died has
/// no loser and no winner, and a round with a winner has a player whose entity died.
pub proof fn lemma_winner_needs_loser(players: Seq<(PlayerId, EntityId)>, dead: Seq<EntityId>)
    ensures
        (forall|i: int| 0 <= i < players.len() ==> !dead.contains(#[trigger] players[i].1)) ==> outcome(
            players,
            dead,
        ) == (Seq::<PlayerId>::empty(), None::<PlayerId>),
        outcome(players, dead).1 is Some ==> outcome(players, dead).0.len() >= 1 && exists|i: int|
            0 <= i < players.len() && dead.contains(#[trigger] players[i].1),
{
    lemma_no_losers(players, dead);
    if forall|i: int| 0 <= i < players.len() ==> !dead.contains(#[trigger] players[i].1) {
        assert(losers(players, dead) =~= Seq::<PlayerId>::empty());
    }
}

} // verus!
