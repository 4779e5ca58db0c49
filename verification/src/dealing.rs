//! What a deal gives the players: two cards each from the end of the deck,
//! no card twice, to every seat with chips.

use vstd::prelude::*;
use std::time::Instant;
use crate::cards::{fresh_deck, lemma_fresh_deck_distinct, Card};
use crate::game::{
    all_readied, deal_hole, keep, lemma_blind_keeps_chips, lemma_deal_hole_keeps, lemma_fresh_hand_chips,
    lemma_keep_members, Player, SeatFilter, Table,
};

verus! {

/// The two cards that the `j`-th player dealt gets from `deck`: cards are
/// dealt from the end of the deck, two to a player.
pub open spec fn hole_at(deck: Seq<Card>, j: int) -> (Card, Card) {
    (deck[deck.len() - 1 - 2 * j], deck[deck.len() - 2 - 2 * j])
}

/// After a deal every player dealt holds the two cards of one of their
/// places among the players dealt, and every other player holds what they
/// held before.
pub proof fn lemma_deal_hole_cards(players: Map<u32, Player>, deck: Seq<Card>, ids: Seq<u32>)
    requires
        deck.len() >= 2 * ids.len(),
    ensures
        forall|id: u32| #![trigger deal_hole(players, deck, ids).0[id]]
            players.contains_key(id) ==> if ids.contains(id) {
                exists|j: int|
                    0 <= j < ids.len() && ids[j] == id && deal_hole(players, deck, ids).0[id].hole_cards == Some(
                        #[trigger] hole_at(deck, j),
                    )
            } else {
                deal_hole(players, deck, ids).0[id].hole_cards == players[id].hole_cards
            },
    decreases ids.len(),
{
    if ids.len() > 0 {
        let first = ids[0];
        let dealt = if players.contains_key(first) {
            players.insert(first, Player { hole_cards: Some((deck.last(), deck.drop_last().last())), ..players[first] })
        } else {
            players
        };
        let rest = deck.drop_last().drop_last();
        let others = ids.drop_first();
        lemma_deal_hole_cards(dealt, rest, others);
        let after = deal_hole(players, deck, ids).0;
        assert(after == deal_hole(dealt, rest, others).0);
        assert forall|id: u32| #![trigger deal_hole(players, deck, ids).0[id]] players.contains_key(id) implies if ids.contains(
            id,
        ) {
            exists|j: int|
                0 <= j < ids.len() && ids[j] == id && after[id].hole_cards == Some(#[trigger] hole_at(deck, j))
        } else {
            after[id].hole_cards == players[id].hole_cards
        } by {
            assert(dealt.contains_key(id));
            let _ = deal_hole(dealt, rest, others).0[id];
            if others.contains(id) {
                let k = choose|k: int|
                    0 <= k < others.len() && others[k] == id && after[id].hole_cards == Some(#[trigger] hole_at(rest, k));
                assert(hole_at(rest, k) == hole_at(deck, k + 1));
                assert(ids[k + 1] == id);
            } else if id == first {
                assert(hole_at(deck, 0) == (deck.last(), deck.drop_last().last()));
                assert(ids[0] == id);
            } else {
                if ids.contains(id) {
                    let j = choose|j: int| 0 <= j < ids.len() && ids[j] == id;
                    assert(others[j - 1] == id);
                }
            }
        }
    }
}

impl Table {
    /// The players who have hole cards all have different cards.
    pub open spec fn hole_cards_differ(self) -> bool {
        &&& forall|a: u32| #![trigger self.players[a]]
            self.players.contains_key(a) ==> (self.players[a].hole_cards matches Some(h) ==> h.0 != h.1)
        &&& forall|a: u32, b: u32| #![trigger self.players[a], self.players[b]]
            self.players.contains_key(a) && self.players.contains_key(b) && a != b ==> (self.players[a].hole_cards matches Some(
                h,
            ) ==> (self.players[b].hole_cards matches Some(g) ==> h.0 != g.0 && h.0 != g.1 && h.1 != g.0 && h.1
                != g.1))
    }
}

/// Dealing from a deck without a card twice to players without hole cards
/// gives every player different cards, and none of them stays in the deck.
pub proof fn lemma_deal_differs(t: Table)
    requires
        t.deck.no_duplicates(),
        t.deck.len() >= 2 * keep(t.players, t.order, SeatFilter::InHand).len(),
        forall|id: u32| t.players.contains_key(id) ==> (#[trigger] t.players[id]).hole_cards is None,
    ensures
        t.with_hole_cards().hole_cards_differ(),
        t.with_hole_cards().deck.no_duplicates(),
        forall|id: u32| #![trigger t.with_hole_cards().players[id]]
            t.with_hole_cards().players.contains_key(id) ==> (t.with_hole_cards().players[id].hole_cards matches Some(
                h,
            ) ==> !t.with_hole_cards().deck.contains(h.0) && !t.with_hole_cards().deck.contains(h.1)),
        forall|id: u32| #![trigger t.with_hole_cards().players[id]]
            t.players.contains_key(id) ==> (t.with_hole_cards().players[id].hole_cards is Some <==> keep(
                t.players,
                t.order,
                SeatFilter::InHand,
            ).contains(id)),
{
    let ids = keep(t.players, t.order, SeatFilter::InHand);
    let deck = t.deck;
    let after = t.with_hole_cards();
    lemma_deal_hole_cards(t.players, deck, ids);
    lemma_deal_hole_keeps(t.players, deck, ids);
    assert(after.players == deal_hole(t.players, deck, ids).0);
    assert(after.deck == deck.take(deck.len() - 2 * ids.len()));
    assert forall|id: u32| #![trigger after.players[id]] t.players.contains_key(id) implies (
    after.players[id].hole_cards is Some <==> ids.contains(id)) by {
        let _ = deal_hole(t.players, deck, ids).0[id];
    }
    assert forall|id: u32| #![trigger after.players[id]] after.players.contains_key(id) implies (
    after.players[id].hole_cards matches Some(h) ==> h.0 != h.1 && !after.deck.contains(h.0) && !after.deck.contains(
        h.1,
    )) by {
        let _ = deal_hole(t.players, deck, ids).0[id];
        if after.players[id].hole_cards is Some {
            let j = choose|j: int|
                0 <= j < ids.len() && ids[j] == id && after.players[id].hole_cards == Some(#[trigger] hole_at(deck, j));
            let h = hole_at(deck, j);
            assert forall|i: int| 0 <= i < after.deck.len() implies after.deck[i] != h.0 && after.deck[i] != h.1 by {
                assert(after.deck[i] == deck[i]);
            }
        }
    }
    assert forall|a: u32, b: u32| #![trigger after.players[a], after.players[b]]
        after.players.contains_key(a) && after.players.contains_key(b) && a != b implies (
    after.players[a].hole_cards matches Some(h) ==> (after.players[b].hole_cards matches Some(g) ==> h.0 != g.0 && h.0
        != g.1 && h.1 != g.0 && h.1 != g.1)) by {
        let _ = deal_hole(t.players, deck, ids).0[a];
        let _ = deal_hole(t.players, deck, ids).0[b];
        if after.players[a].hole_cards is Some && after.players[b].hole_cards is Some {
            let j = choose|j: int|
                0 <= j < ids.len() && ids[j] == a && after.players[a].hole_cards == Some(#[trigger] hole_at(deck, j));
            let k = choose|k: int|
                0 <= k < ids.len() && ids[k] == b && after.players[b].hole_cards == Some(#[trigger] hole_at(deck, k));
            assert(j != k);
        }
    }
    assert(after.deck.no_duplicates());
}

/// A deck that holds the cards of the fresh deck, in whatever order, holds
/// no card twice.
pub proof fn lemma_shuffled_deck_distinct(deck: Seq<Card>)
    requires
        deck.to_multiset() == fresh_deck().to_multiset(),
    ensures
        deck.no_duplicates(),
        deck.len() == 52,
{
    lemma_fresh_deck_distinct();
    fresh_deck().lemma_multiset_has_no_duplicates();
    deck.lemma_multiset_has_no_duplicates_conv();
    vstd::seq_lib::to_multiset_len(deck);
    vstd::seq_lib::to_multiset_len(fresh_deck());
}

/// A hand that begins with a deck that holds no card twice gives every
/// player dealt different cards, none of which is left in the deck. A
/// seat is kept exactly where its player has chips, and where a hand is
/// played every seat kept is in the hand, to act or all-in by a blind, and
/// holds hole cards.
pub proof fn lemma_new_hand_deals(t: Table, raise: Option<Instant>, deck: Seq<Card>)
    requires
        t.can_begin_hand(raise is Some, deck.len()),
        deck.no_duplicates(),
    ensures
        ({
            let after = t.after_new_hand(raise, deck);
            &&& after.hole_cards_differ()
            &&& after.deck.no_duplicates()
            &&& forall|id: u32| #![trigger after.players[id]]
                after.players.contains_key(id) ==> (after.players[id].hole_cards matches Some(h) ==> !after.deck.contains(
                    h.0,
                ) && !after.deck.contains(h.1))
            &&& after.order == keep(t.players, t.order, SeatFilter::Funded)
            &&& forall|i: int| #![trigger after.order[i]]
                0 <= i < after.order.len() ==> t.players.contains_key(after.order[i]) && t.players[after.order[i]].chips
                    > 0
            &&& after.order.len() >= 2 ==> forall|i: int| #![trigger after.order[i]]
                0 <= i < after.order.len() ==> after.players[after.order[i]].in_hand()
                    && after.players[after.order[i]].hole_cards is Some
        }),
{
    let priced = match raise {
        Some(now) => t.with_raised_blinds(now),
        None => t,
    };
    let fresh = priced.with_fresh_hand(deck);
    lemma_fresh_hand_chips(priced, deck);
    lemma_keep_members(t.players, t.order, SeatFilter::Funded);
    assert(fresh.order == keep(t.players, t.order, SeatFilter::Funded));
    assert(forall|id: u32| fresh.players.contains_key(id) ==> (#[trigger] fresh.players[id]).hole_cards is None);
    let after = t.after_new_hand(raise, deck);
    if fresh.order.len() >= 2 {
        let small = fresh.order[fresh.next_small_blind()];
        let big = fresh.order[fresh.next_big_blind()];
        let one = fresh.after_blind(small, fresh.small_blind);
        let posted = fresh.with_blinds_posted();
        assert(posted.players == one.after_blind(big, fresh.big_blind).players);
        assert(posted.order == fresh.order);
        assert(posted.deck == deck);
        assert forall|id: u32| posted.players.contains_key(id) implies (#[trigger] posted.players[id]).hole_cards is None
            && fresh.players.contains_key(id) && (fresh.players[id].in_hand() ==> posted.players[id].in_hand()) by {}
        let ids = keep(posted.players, posted.order, SeatFilter::InHand);
        lemma_keep_members(posted.players, posted.order, SeatFilter::InHand);
        lemma_deal_differs(posted);
        assert(after == posted.with_hole_cards());
        lemma_deal_hole_keeps(posted.players, posted.deck, ids);
        assert forall|i: int| #![trigger after.order[i]] 0 <= i < after.order.len() implies after.players[after.order[i]].in_hand()
            && after.players[after.order[i]].hole_cards is Some by {
            let id = after.order[i];
            assert(id == fresh.order[i]);
            assert(keep(t.players, t.order, SeatFilter::Funded)[i] == id);
            assert(t.players.contains_key(id) && t.players[id].chips > 0);
            assert(fresh.players[id].in_hand());
            assert(posted.players.contains_key(id));
            assert(posted.players[id].in_hand());
            assert(SeatFilter::InHand.accepts(posted.players, posted.order[i]));
            assert(ids.contains(id));
            let _ = after.players[id];
            let _ = deal_hole(posted.players, posted.deck, ids).0[id];
        }
    } else {
        assert(after == fresh);
    }
}

} // verus!
