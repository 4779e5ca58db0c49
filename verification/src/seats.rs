//! The seats of a table are in order: every seat is taken by a seated
//! player, no player has two seats, and every ID given out is below the
//! next. Whatever happens at the table keeps them so.

use vstd::prelude::*;
use std::time::Instant;
use crate::cards::Card;
use crate::cards::FullHand;
use crate::game::{
    keep, lemma_chips_below_bounds, lemma_deal_hole_keeps, lemma_fresh_hand_chips, lemma_keep_members, Player,
    SeatFilter, Table,
};
use crate::protocol::PlayerAction;
use crate::room::{without, RoomView};
use crate::showdown::{lemma_awards_shape, lemma_paid_dom, lemma_unbeaten_below_bounds, paid, unbeaten_below};

verus! {

impl Table {
    /// Every seat is taken by a seated player, no player has two seats,
    /// and every ID given out so far is below the next.
    pub open spec fn seats_wf(self) -> bool {
        &&& self.order.no_duplicates()
        &&& forall|i: int| 0 <= i < self.order.len() ==> self.players.contains_key(#[trigger] self.order[i])
        &&& forall|id: u32| #[trigger] self.players.contains_key(id) ==> id < self.next_player_id
    }
}

/// What is kept of a list without repeats has no repeats.
pub proof fn lemma_keep_distinct(players: Map<u32, Player>, order: Seq<u32>, f: SeatFilter)
    requires
        order.no_duplicates(),
    ensures
        keep(players, order, f).no_duplicates(),
    decreases order.len(),
{
    if order.len() > 0 {
        let init = order.drop_last();
        assert forall|i: int, j: int| 0 <= i < init.len() && 0 <= j < init.len() && i != j implies init[i] != init[j] by {
            assert(init[i] == order[i] && init[j] == order[j]);
        }
        lemma_keep_distinct(players, init, f);
        lemma_keep_members(players, init, f);
        let before = keep(players, init, f);
        assert forall|i: int| 0 <= i < before.len() implies before[i] != order.last() by {
            assert(init.contains(before[i]));
            let a = choose|a: int| 0 <= a < init.len() && init[a] == before[i];
            assert(order[a] == before[i]);
        }
    }
}

/// A new player under the next ID keeps the seats in order.
pub proof fn lemma_seats_with_player(t: Table, p: Player)
    requires
        t.seats_wf(),
        p.id == t.next_player_id,
        t.next_player_id < u32::MAX,
    ensures
        t.with_player(p).seats_wf(),
        !t.players.contains_key(p.id),
{
    let after = t.with_player(p);
    assert forall|i: int| 0 <= i < t.order.len() implies t.order[i] != p.id by {
        assert(t.players.contains_key(t.order[i]));
    }
    assert forall|i: int| 0 <= i < after.order.len() implies after.players.contains_key(#[trigger] after.order[i]) by {
        if i < t.order.len() {
            assert(after.order[i] == t.order[i]);
            assert(t.players.contains_key(t.order[i]));
        }
    }
}

/// A player who leaves takes their seat along, and the seats stay in
/// order.
pub proof fn lemma_seats_without_player(t: Table, id: u32)
    requires
        t.seats_wf(),
    ensures
        t.without_player(id).seats_wf(),
        !t.without_player(id).order.contains(id),
        !t.without_player(id).players.contains_key(id),
{
    let after = t.without_player(id);
    lemma_keep_distinct(t.players, t.order, SeatFilter::Except(id));
    lemma_keep_members(t.players, t.order, SeatFilter::Except(id));
    assert forall|i: int| 0 <= i < after.order.len() implies after.players.contains_key(#[trigger] after.order[i])
        && after.order[i] != id by {
        assert(SeatFilter::Except(id).accepts(t.players, after.order[i]));
        assert(t.order.contains(after.order[i]));
        let a = choose|a: int| 0 <= a < t.order.len() && t.order[a] == after.order[i];
        assert(t.players.contains_key(t.order[a]));
    }
}

/// Sitting out or back in changes no seat.
pub proof fn lemma_seats_with_sitting(t: Table, id: u32, out: bool)
    requires
        t.seats_wf(),
    ensures
        t.with_sitting(id, out).seats_wf(),
{
    let after = t.with_sitting(id, out);
    assert(after.order == t.order);
    assert forall|i: int| 0 <= i < after.order.len() implies after.players.contains_key(#[trigger] after.order[i]) by {
        assert(t.players.contains_key(t.order[i]));
    }
}

/// An action changes no seat.
pub proof fn lemma_seats_after_action(t: Table, player_id: u32, action: PlayerAction, amount: u32)
    requires
        t.seats_wf(),
        t.players.contains_key(player_id),
    ensures
        t.after_action(player_id, action, amount).seats_wf(),
{
    let after = t.after_action(player_id, action, amount);
    assert(after.order == t.order);
    assert(after.players.dom() =~= t.players.dom());
    assert forall|i: int| 0 <= i < after.order.len() implies after.players.contains_key(#[trigger] after.order[i]) by {
        assert(t.players.contains_key(t.order[i]));
    }
}

/// A new street changes no seat.
pub proof fn lemma_seats_after_advance(t: Table)
    requires
        t.seats_wf(),
    ensures
        t.after_advance().seats_wf(),
{
    let after = t.after_advance();
    assert(after.order == t.order);
    assert(after.players.dom() =~= t.players.dom());
    assert forall|i: int| 0 <= i < after.order.len() implies after.players.contains_key(#[trigger] after.order[i]) by {
        assert(t.players.contains_key(t.order[i]));
    }
}

/// A new hand keeps the seats of the players with chips, in their order.
pub proof fn lemma_seats_after_new_hand(t: Table, raise: Option<Instant>, deck: Seq<Card>)
    requires
        t.seats_wf(),
        t.can_begin_hand(raise is Some, deck.len()),
    ensures
        t.after_new_hand(raise, deck).seats_wf(),
{
    let priced = match raise {
        Some(now) => t.with_raised_blinds(now),
        None => t,
    };
    let fresh = priced.with_fresh_hand(deck);
    lemma_fresh_hand_chips(priced, deck);
    lemma_keep_distinct(t.players, t.order, SeatFilter::Funded);
    lemma_keep_members(t.players, t.order, SeatFilter::Funded);
    assert(fresh.order == keep(t.players, t.order, SeatFilter::Funded));
    assert(fresh.players.dom() =~= t.players.dom());
    let after = t.after_new_hand(raise, deck);
    if fresh.order.len() >= 2 {
        let posted = fresh.with_blinds_posted();
        assert(posted.players.dom() =~= fresh.players.dom());
        let ids = keep(posted.players, posted.order, SeatFilter::InHand);
        lemma_keep_members(posted.players, posted.order, SeatFilter::InHand);
        lemma_deal_hole_keeps(posted.players, posted.deck, ids);
        assert(after.players.dom() == posted.players.dom());
    }
    assert(after.order == fresh.order);
    assert(after.players.dom() =~= t.players.dom());
    assert forall|i: int| 0 <= i < after.order.len() implies after.players.contains_key(#[trigger] after.order[i]) by {
        assert(SeatFilter::Funded.accepts(t.players, after.order[i]));
    }
}

/// Resolving a hand changes no seat.
pub proof fn lemma_seats_after_resolve(t: Table, walk: Seq<u32>)
    requires
        t.seats_wf(),
    ensures
        t.after_resolve(walk).seats_wf(),
{
    let after = t.after_resolve(walk);
    lemma_paid_dom(t.players, t.awards(), t.awards().len() as int);
    assert(after.order == t.order);
    assert(after.players.dom() =~= t.players.dom());
    assert forall|i: int| 0 <= i < after.order.len() implies after.players.contains_key(#[trigger] after.order[i]) by {
        assert(t.players.contains_key(t.order[i]));
    }
}

/// The unbeaten positions rise.
pub proof fn lemma_unbeaten_rise(bests: Seq<Option<FullHand>>, k: int)
    requires
        k <= bests.len(),
    ensures
        forall|i: int, j: int|
            0 <= i < j < unbeaten_below(bests, k).len() ==> unbeaten_below(bests, k)[i] < unbeaten_below(bests, k)[j],
    decreases k,
{
    if k > 0 {
        lemma_unbeaten_rise(bests, k - 1);
        lemma_unbeaten_below_bounds(bests, k - 1);
    }
}

/// Awards to different seated players are paid each to its player: the
/// stack rises by the award and nothing else changes; who gets no award
/// is as before.
pub proof fn lemma_paid_each_once(players: Map<u32, Player>, awards: Seq<(u32, u32, Seq<char>)>, k: int)
    requires
        0 <= k <= awards.len(),
        forall|i: int, j: int| 0 <= i < j < k ==> awards[i].0 != awards[j].0,
        forall|i: int|
            0 <= i < k ==> players.contains_key((#[trigger] awards[i]).0) && players[awards[i].0].chips + awards[i].1
                <= u32::MAX,
    ensures
        paid(players, awards, k).dom() == players.dom(),
        forall|i: int|
            0 <= i < k ==> paid(players, awards, k)[(#[trigger] awards[i]).0] == (Player {
                chips: (players[awards[i].0].chips + awards[i].1) as u32,
                ..players[awards[i].0]
            }),
        forall|id: u32|
            players.contains_key(id) && (forall|i: int| 0 <= i < k ==> (#[trigger] awards[i]).0 != id) ==> #[trigger] paid(
                players,
                awards,
                k,
            )[id] == players[id],
    decreases k,
{
    lemma_paid_dom(players, awards, k);
    if k > 0 {
        lemma_paid_each_once(players, awards, k - 1);
        lemma_paid_dom(players, awards, k - 1);
        let before = paid(players, awards, k - 1);
        let after = paid(players, awards, k);
        let last = awards[k - 1].0;
        assert(players.contains_key(last));
        assert(before.contains_key(last));
        assert(before[last] == players[last]) by {
            assert forall|i: int| 0 <= i < k - 1 implies (#[trigger] awards[i]).0 != last by {}
        }
        assert forall|i: int| 0 <= i < k implies after[(#[trigger] awards[i]).0] == (Player {
            chips: (players[awards[i].0].chips + awards[i].1) as u32,
            ..players[awards[i].0]
        }) by {
            if i < k - 1 {
                assert(awards[i].0 != last);
            }
        }
        assert forall|id: u32|
            players.contains_key(id) && (forall|i: int| 0 <= i < k ==> (#[trigger] awards[i]).0 != id) implies #[trigger] after[id]
            == players[id] by {
            assert(awards[k - 1].0 != id);
            assert(forall|i: int| 0 <= i < k - 1 ==> (#[trigger] awards[i]).0 != id);
        }
    }
}

/// At a table whose seats are in order every winner of a hand is paid
/// once: the stack of each rises by exactly the award, a share of the pot,
/// and nobody else's stack changes.
pub proof fn lemma_winners_paid_once(t: Table)
    requires
        t.wf(),
        t.seats_wf(),
        t.shown_ids().len() >= 1,
    ensures
        forall|i: int, j: int| 0 <= i < j < t.awards().len() ==> t.awards()[i].0 != t.awards()[j].0,
        forall|i: int|
            0 <= i < t.awards().len() ==> t.players.contains_key((#[trigger] t.awards()[i]).0) && t.paid_players()[t.awards()[i].0]
                == (Player {
                chips: (t.players[t.awards()[i].0].chips + t.awards()[i].1) as u32,
                ..t.players[t.awards()[i].0]
            }) && t.players[t.awards()[i].0].chips + t.awards()[i].1 <= u32::MAX,
        forall|id: u32|
            t.players.contains_key(id) && (forall|i: int| 0 <= i < t.awards().len() ==> (#[trigger] t.awards()[i]).0 != id)
                ==> #[trigger] t.paid_players()[id] == t.players[id],
{
    let ids = t.shown_ids();
    let n = ids.len() as int;
    let awards = t.awards();
    let bests = t.shown_bests();
    lemma_keep_distinct(t.players, t.order, SeatFilter::Showing);
    lemma_keep_members(t.players, t.order, SeatFilter::Showing);
    lemma_awards_shape(t);
    if n > 1 {
        lemma_unbeaten_below_bounds(bests, n);
        lemma_unbeaten_rise(bests, n);
    }
    let w = unbeaten_below(bests, n);
    assert forall|i: int| 0 <= i < awards.len() implies t.players.contains_key((#[trigger] awards[i]).0)
        && t.players[awards[i].0].chips + awards[i].1 <= u32::MAX by {
        let id = awards[i].0;
        if n == 1 {
            assert(id == ids[0]);
            assert(SeatFilter::Showing.accepts(t.players, ids[0]));
        } else {
            assert(id == ids[w[i]]);
            assert(SeatFilter::Showing.accepts(t.players, ids[w[i]]));
        }
        lemma_chips_below_bounds(t.players, id, 0x1_0000_0000);
        assert(awards[i].1 == t.share());
        assert(t.share() * 1 <= t.share() * t.winner_count()) by (nonlinear_arith)
            requires
                t.winner_count() >= 1,
                t.share() >= 0,
        ;
    }
    assert forall|i: int, j: int| 0 <= i < j < awards.len() implies awards[i].0 != awards[j].0 by {
        assert(n > 1);
        assert(awards[i].0 == ids[w[i]] && awards[j].0 == ids[w[j]]);
        assert(w[i] < w[j]);
    }
    lemma_paid_each_once(t.players, awards, awards.len() as int);
}

impl RoomView {
    /// The room is in order: nobody is connected twice, and the seats of
    /// its table are in order.
    pub open spec fn wf(self) -> bool {
        self.connected.no_duplicates() && self.game.seats_wf()
    }
}

/// A connection more, of somebody who is not connected yet, connects
/// nobody twice.
pub proof fn lemma_connection_once(room: RoomView, player_id: u32)
    requires
        room.connected.no_duplicates(),
    ensures
        room.with_connection(player_id).connected.no_duplicates(),
        room.with_connection(player_id).connected.contains(player_id),
{
    if !room.connected.contains(player_id) {
        let more = room.connected.push(player_id);
        assert(more[more.len() - 1] == player_id);
        assert forall|i: int, j: int| 0 <= i < more.len() && 0 <= j < more.len() && i != j implies more[i] != more[j] by {
            if i < room.connected.len() {
                assert(room.connected.contains(more[i]));
            }
            if j < room.connected.len() {
                assert(room.connected.contains(more[j]));
            }
        }
    }
}

/// A room in order is in order after a player joined.
pub proof fn lemma_room_after_join(room: RoomView, name: String, token: u128)
    requires
        room.wf(),
        room.game.next_player_id < u32::MAX,
    ensures
        room.after_join(name, token).wf(),
{
    let p = room.game.new_player(name, room.joining_chips());
    lemma_seats_with_player(room.game, p);
    let seated = room.game.with_player(p);
    if room.game.game_started {
        lemma_seats_with_sitting(seated, p.id, true);
    }
    let game = if room.game.game_started {
        seated.with_sitting(p.id, true)
    } else {
        seated
    };
    lemma_connection_once(RoomView { game, ..room }.with_session(p.id, token), p.id);
}

/// A room in order is in order after an attempt to rejoin.
pub proof fn lemma_room_after_rejoin(room: RoomView, token: u128)
    requires
        room.wf(),
    ensures
        room.after_rejoin(token).wf(),
{
    if room.rejoin_error(token) is None {
        let id = room.sessions[token];
        lemma_connection_once(RoomView { disconnected_at: room.disconnected_at.remove(id), ..room }, id);
    }
}

/// A room in order is in order after a disconnect, and the player is no
/// longer connected.
pub proof fn lemma_room_after_disconnect(room: RoomView, player_id: u32, now: Instant)
    requires
        room.wf(),
    ensures
        room.after_disconnect(player_id, now).wf(),
        !room.after_disconnect(player_id, now).connected.contains(player_id),
{
    let empty = Map::<u32, Player>::empty();
    lemma_keep_distinct(empty, room.connected, SeatFilter::Except(player_id));
    lemma_keep_members(empty, room.connected, SeatFilter::Except(player_id));
    let left = without(room.connected, player_id);
    if left.contains(player_id) {
        let i = choose|i: int| 0 <= i < left.len() && left[i] == player_id;
        assert(SeatFilter::Except(player_id).accepts(empty, left[i]));
    }
    if room.holds_seat(player_id) {
        lemma_seats_with_sitting(room.game, player_id, true);
    } else {
        lemma_seats_without_player(room.game, player_id);
    }
}

/// A room in order is in order after the reaper came.
pub proof fn lemma_room_after_reap(room: RoomView, player_id: u32, elapsed: Option<u64>)
    requires
        room.wf(),
    ensures
        room.after_reap(player_id, elapsed).wf(),
{
    if room.grace_over(player_id, elapsed) {
        lemma_seats_without_player(room.game, player_id);
    }
}

} // verus!
