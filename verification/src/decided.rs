//! Every trial of an equity run has a leader: with hole cards and board
//! cards that are all different, and cards enough to lay a flop, some hand
//! is best in each trial, so that the shares of the hands add up to the
//! number of trials.

use vstd::prelude::*;
use crate::best::spec_best;
use crate::cards::{fresh_deck, lemma_fresh_deck_distinct, Board, Card, FullHand, Hand};
use crate::equity::{
    hand_bests, is_trial_run, known_cards, leaders, lemma_decided_zero, lemma_leaders_rise, trial_leaders, unseen,
    unseen_below, EquityTally,
};
use crate::optimal::{drawn_from, lemma_best_is_maximal};

verus! {

/// From five to seven different cards a best hand can be made.
pub proof fn lemma_best_exists(cs: Seq<Card>)
    requires
        5 <= cs.len() <= 7,
        cs.no_duplicates(),
    ensures
        spec_best(cs) is Some,
{
    let t = FullHand(cs[0], cs[1], cs[2], cs[3], cs[4]);
    assert(drawn_from(t, cs));
    lemma_best_is_maximal(cs, t);
}

/// Where one of the first `k` hands is there, somebody leads.
pub proof fn lemma_some_leader(bests: Seq<Option<FullHand>>, k: int, j: int)
    requires
        0 <= j < k <= bests.len(),
        bests[j] is Some,
    ensures
        leaders(bests, k).len() >= 1,
    decreases k,
{
    if j < k - 1 {
        lemma_some_leader(bests, k - 1, j);
    }
}

/// The cards that nobody holds are different cards, and none of them is
/// among the known ones.
pub proof fn lemma_unseen_distinct(known: Seq<Card>, k: int)
    requires
        0 <= k <= 52,
    ensures
        unseen_below(known, k).no_duplicates(),
        forall|i: int|
            0 <= i < unseen_below(known, k).len() ==> !known.contains(#[trigger] unseen_below(known, k)[i]) && exists|
                m: int,
            | 0 <= m < k && unseen_below(known, k)[i] == #[trigger] fresh_deck()[m],
    decreases k,
{
    if k > 0 {
        lemma_unseen_distinct(known, k - 1);
        lemma_fresh_deck_distinct();
        let before = unseen_below(known, k - 1);
        let now = unseen_below(known, k);
        let card = fresh_deck()[k - 1];
        if !known.contains(card) {
            assert forall|i: int| 0 <= i < before.len() implies before[i] != card by {
                let m = choose|m: int| 0 <= m < k - 1 && before[i] == #[trigger] fresh_deck()[m];
                assert(fresh_deck()[m] != fresh_deck()[k - 1]);
            }
            assert forall|i: int| 0 <= i < now.len() implies !known.contains(#[trigger] now[i]) && exists|m: int|
                0 <= m < k && now[i] == #[trigger] fresh_deck()[m] by {
                if i < before.len() {
                    assert(now[i] == before[i]);
                    let m = choose|m: int| 0 <= m < k - 1 && before[i] == #[trigger] fresh_deck()[m];
                    assert(0 <= m < k && now[i] == fresh_deck()[m]);
                } else {
                    assert(now[i] == fresh_deck()[k - 1]);
                }
            }
        } else {
            assert forall|i: int| 0 <= i < now.len() implies !known.contains(#[trigger] now[i]) && exists|m: int|
                0 <= m < k && now[i] == #[trigger] fresh_deck()[m] by {
                let m = choose|m: int| 0 <= m < k - 1 && before[i] == #[trigger] fresh_deck()[m];
                assert(0 <= m < k && now[i] == fresh_deck()[m]);
            }
        }
    }
}

/// A shuffle of the cards that nobody holds has as many cards, all
/// different, and none of them among the known ones.
pub proof fn lemma_shuffle_of_unseen(known: Seq<Card>, deck: Seq<Card>)
    requires
        deck.to_multiset() == unseen(known).to_multiset(),
    ensures
        deck.len() == unseen(known).len(),
        deck.no_duplicates(),
        forall|i: int| 0 <= i < deck.len() ==> !known.contains(#[trigger] deck[i]),
{
    let u = unseen(known);
    lemma_unseen_distinct(known, 52);
    vstd::seq_lib::to_multiset_len(deck);
    vstd::seq_lib::to_multiset_len(u);
    u.lemma_multiset_has_no_duplicates();
    deck.lemma_multiset_has_no_duplicates_conv();
    assert forall|i: int| 0 <= i < deck.len() implies !known.contains(#[trigger] deck[i]) by {
        vstd::seq_lib::to_multiset_contains(deck, deck[i]);
        vstd::seq_lib::to_multiset_contains(u, deck[i]);
        assert(deck.contains(deck[i]));
        assert(u.contains(deck[i]));
        let j = choose|j: int| 0 <= j < u.len() && u[j] == deck[i];
        assert(!known.contains(u[j]));
    }
}

/// The card is one of the first `k` known cards or one of the cards of the
/// deck from place `l` on.
pub open spec fn card_from(c: Card, known: Seq<Card>, deck: Seq<Card>, k: int, l: int) -> bool {
    (exists|a: int| 0 <= a < k && a < known.len() && #[trigger] known[a] == c) || (exists|m: int|
        l <= m < deck.len() && 0 <= m && #[trigger] deck[m] == c)
}

/// Every card of `cards` is one of the first `k` known cards or one of the
/// cards of the deck from place `l` on.
pub open spec fn taken_from(cards: Seq<Card>, known: Seq<Card>, deck: Seq<Card>, k: int, l: int) -> bool {
    forall|i: int| 0 <= i < cards.len() ==> card_from(#[trigger] cards[i], known, deck, k, l)
}

/// One more known card, from a place that was not used yet, keeps the
/// cards different.
proof fn lemma_take_known(cards: Seq<Card>, known: Seq<Card>, deck: Seq<Card>, k: int, l: int, a: int)
    requires
        known.no_duplicates(),
        forall|i: int| 0 <= i < deck.len() ==> !known.contains(#[trigger] deck[i]),
        cards.no_duplicates(),
        taken_from(cards, known, deck, k, l),
        0 <= k <= a < known.len(),
    ensures
        cards.push(known[a]).no_duplicates(),
        taken_from(cards.push(known[a]), known, deck, a + 1, l),
{
    let more = cards.push(known[a]);
    assert(known.contains(known[a]));
    assert forall|i: int| 0 <= i < cards.len() implies cards[i] != known[a] by {
        assert(card_from(cards[i], known, deck, k, l));
        if exists|b: int| 0 <= b < k && b < known.len() && #[trigger] known[b] == cards[i] {
            let b = choose|b: int| 0 <= b < k && b < known.len() && #[trigger] known[b] == cards[i];
            assert(known[b] != known[a]);
        } else {
            let m = choose|m: int| l <= m < deck.len() && 0 <= m && #[trigger] deck[m] == cards[i];
            assert(!known.contains(deck[m]));
        }
    }
    assert forall|i: int| 0 <= i < more.len() implies card_from(#[trigger] more[i], known, deck, a + 1, l) by {
        if i < cards.len() {
            assert(more[i] == cards[i]);
            assert(card_from(cards[i], known, deck, k, l));
            if exists|b: int| 0 <= b < k && b < known.len() && #[trigger] known[b] == cards[i] {
                let b = choose|b: int| 0 <= b < k && b < known.len() && #[trigger] known[b] == cards[i];
                assert(0 <= b < a + 1 && b < known.len() && known[b] == more[i]);
            }
        } else {
            assert(0 <= a < a + 1 && a < known.len() && known[a] == more[i]);
        }
    }
}

/// One more card from the deck, from a place below those used, keeps the
/// cards different.
proof fn lemma_take_dealt(cards: Seq<Card>, known: Seq<Card>, deck: Seq<Card>, k: int, l: int, m: int)
    requires
        deck.no_duplicates(),
        forall|i: int| 0 <= i < deck.len() ==> !known.contains(#[trigger] deck[i]),
        cards.no_duplicates(),
        taken_from(cards, known, deck, k, l),
        0 <= m < l,
        m < deck.len(),
    ensures
        cards.push(deck[m]).no_duplicates(),
        taken_from(cards.push(deck[m]), known, deck, k, m),
{
    let more = cards.push(deck[m]);
    assert(!known.contains(deck[m]));
    assert forall|i: int| 0 <= i < cards.len() implies cards[i] != deck[m] by {
        assert(card_from(cards[i], known, deck, k, l));
        if exists|b: int| 0 <= b < k && b < known.len() && #[trigger] known[b] == cards[i] {
            let b = choose|b: int| 0 <= b < k && b < known.len() && #[trigger] known[b] == cards[i];
            assert(known.contains(known[b]));
        } else {
            let x = choose|x: int| l <= x < deck.len() && 0 <= x && #[trigger] deck[x] == cards[i];
            assert(deck[x] != deck[m]);
        }
    }
    assert forall|i: int| 0 <= i < more.len() implies card_from(#[trigger] more[i], known, deck, k, m) by {
        if i < cards.len() {
            assert(more[i] == cards[i]);
            assert(card_from(cards[i], known, deck, k, l));
            if !(exists|b: int| 0 <= b < k && b < known.len() && #[trigger] known[b] == cards[i]) {
                let x = choose|x: int| l <= x < deck.len() && 0 <= x && #[trigger] deck[x] == cards[i];
                assert(m <= x < deck.len() && 0 <= x && deck[x] == more[i]);
            }
        } else {
            assert(m <= m < deck.len() && 0 <= m && deck[m] == more[i]);
        }
    }
}

/// What is taken from fewer places is taken from more.
proof fn lemma_taken_wider(cards: Seq<Card>, known: Seq<Card>, deck: Seq<Card>, k: int, l: int, k2: int, l2: int)
    requires
        taken_from(cards, known, deck, k, l),
        k <= k2,
        l2 <= l,
    ensures
        taken_from(cards, known, deck, k2, l2),
{
    assert forall|i: int| 0 <= i < cards.len() implies card_from(#[trigger] cards[i], known, deck, k2, l2) by {
        assert(card_from(cards[i], known, deck, k, l));
        if exists|b: int| 0 <= b < k && b < known.len() && #[trigger] known[b] == cards[i] {
            let b = choose|b: int| 0 <= b < k && b < known.len() && #[trigger] known[b] == cards[i];
            assert(0 <= b < k2 && b < known.len() && known[b] == cards[i]);
        } else {
            let x = choose|x: int| l <= x < deck.len() && 0 <= x && #[trigger] deck[x] == cards[i];
            assert(l2 <= x < deck.len() && 0 <= x && deck[x] == cards[i]);
        }
    }
}

/// The cards of a hand on a board that was filled from a deck are all
/// different, where the hole cards and the cards that lay on the board
/// are different known cards, the hole cards before those of the board,
/// and the deck holds different cards that are not known.
pub proof fn lemma_trial_cards_distinct(hand: Hand, board: Board, deck: Seq<Card>, known: Seq<Card>, at: int)
    requires
        known.no_duplicates(),
        deck.no_duplicates(),
        forall|i: int| 0 <= i < deck.len() ==> !known.contains(#[trigger] deck[i]),
        0 <= at,
        at + 1 < known.len() - board.spec_cards().len(),
        known[at] == hand.0,
        known[at + 1] == hand.1,
        forall|i: int|
            0 <= i < board.spec_cards().len() ==> known[known.len() - board.spec_cards().len() + i]
                == #[trigger] board.spec_cards()[i],
    ensures
        hand.spec_all_cards(board.spec_fill(deck).0).no_duplicates(),
{
    let b = board.spec_cards();
    let off = known.len() - b.len();
    let n = deck.len() as int;
    let filled = board.spec_fill(deck).0;
    let mut s = Seq::<Card>::empty();
    let mut k = at;
    let mut l = n;
    assert(taken_from(s, known, deck, k, l));
    lemma_take_known(s, known, deck, k, l, at);
    s = s.push(known[at]);
    k = at + 1;
    lemma_take_known(s, known, deck, k, l, at + 1);
    s = s.push(known[at + 1]);
    k = at + 2;
    assert(s =~= seq![hand.0, hand.1]);
    let mut at_board: int = 0;
    match board.flop {
        Some((x, y, z)) => {
            assert(b[0] == x && b[1] == y && b[2] == z);
            lemma_take_known(s, known, deck, k, l, off);
            s = s.push(known[off]);
            k = off + 1;
            lemma_take_known(s, known, deck, k, l, off + 1);
            s = s.push(known[off + 1]);
            k = off + 2;
            lemma_take_known(s, known, deck, k, l, off + 2);
            s = s.push(known[off + 2]);
            k = off + 3;
            at_board = 3;
            assert(s =~= seq![hand.0, hand.1, x, y, z]);
        },
        None => {
            if n >= 3 {
                lemma_take_dealt(s, known, deck, k, l, n - 1);
                s = s.push(deck[n - 1]);
                l = n - 1;
                lemma_take_dealt(s, known, deck, k, l, n - 2);
                s = s.push(deck[n - 2]);
                l = n - 2;
                lemma_take_dealt(s, known, deck, k, l, n - 3);
                s = s.push(deck[n - 3]);
                l = n - 3;
                assert(s =~= seq![hand.0, hand.1, deck[n - 1], deck[n - 2], deck[n - 3]]);
            } else {
                lemma_taken_wider(s, known, deck, k, l, k, 0);
                l = 0;
            }
        },
    }
    let flop_cards = match filled.flop {
        Some((x, y, z)) => seq![x, y, z],
        None => Seq::<Card>::empty(),
    };
    assert(s =~= seq![hand.0, hand.1] + flop_cards);
    let after_flop = s;
    let d1 = deck.take(l);
    match board.turn {
        Some(c) => {
            assert(b[at_board] == c);
            lemma_take_known(s, known, deck, k, l, off + at_board);
            s = s.push(known[off + at_board]);
            k = off + at_board + 1;
            at_board = at_board + 1;
        },
        None => {
            if l >= 1 {
                lemma_take_dealt(s, known, deck, k, l, l - 1);
                assert(d1.last() == deck[l - 1]);
                s = s.push(deck[l - 1]);
                l = l - 1;
            }
        },
    }
    let turn_cards = match filled.turn {
        Some(c) => seq![c],
        None => Seq::<Card>::empty(),
    };
    assert(s =~= after_flop + turn_cards);
    let after_turn = s;
    let d2 = deck.take(l);
    match board.river {
        Some(c) => {
            assert(b[at_board] == c);
            lemma_take_known(s, known, deck, k, l, off + at_board);
            s = s.push(known[off + at_board]);
        },
        None => {
            if l >= 1 {
                lemma_take_dealt(s, known, deck, k, l, l - 1);
                assert(d2.last() == deck[l - 1]);
                s = s.push(deck[l - 1]);
            }
        },
    }
    let river_cards = match filled.river {
        Some(c) => seq![c],
        None => Seq::<Card>::empty(),
    };
    assert(s =~= after_turn + river_cards);
    assert(hand.spec_all_cards(filled) =~= s);
}

/// The cards that nobody holds are enough to fill the board to a flop at
/// least, so that every hand has five cards or more.
pub open spec fn board_can_fill(hands: Seq<Hand>, board: Board) -> bool {
    board.spec_fill(unseen(known_cards(hands, board))).0.spec_cards().len() >= 3
}

/// Every trial has a leader: where the hole cards and the cards of the
/// board are all different and the board can be filled, some hand is best
/// once the board was filled from a shuffle of the cards that nobody holds.
pub proof fn lemma_trial_is_decided(hands: Seq<Hand>, board: Board, deck: Seq<Card>)
    requires
        1 <= hands.len() <= usize::MAX,
        known_cards(hands, board).no_duplicates(),
        board_can_fill(hands, board),
        deck.to_multiset() == unseen(known_cards(hands, board)).to_multiset(),
    ensures
        1 <= trial_leaders(hands, board, deck).len() <= hands.len(),
{
    let known = known_cards(hands, board);
    let b = board.spec_cards();
    lemma_shuffle_of_unseen(known, deck);
    assert(known.len() == 2 * hands.len() + b.len());
    assert(known[0] == hands[0].0);
    assert(known[1] == hands[0].1);
    assert forall|i: int| 0 <= i < b.len() implies known[known.len() - b.len() + i] == #[trigger] b[i] by {}
    lemma_trial_cards_distinct(hands[0], board, deck, known, 0);
    let filled = board.spec_fill(deck).0;
    let cs = hands[0].spec_all_cards(filled);
    assert(filled.spec_cards().len() == board.spec_fill(unseen(known)).0.spec_cards().len());
    assert(filled.spec_cards().len() <= 5);
    lemma_best_exists(cs);
    let bests = hand_bests(hands, filled);
    assert(bests[0] == spec_best(cs));
    lemma_some_leader(bests, hands.len() as int, 0);
    lemma_leaders_rise(bests, hands.len() as int);
}

/// A trial with a leader counts once among the decided trials.
proof fn lemma_decided_grows(after: EquityTally, before: EquityTally, lead: int, upto: int)
    requires
        0 <= upto <= after.ways@.len(),
        after.ways@.len() == before.ways@.len(),
        forall|k: int|
            0 <= k < upto ==> (#[trigger] after.ways@[k]) == before.ways@[k] + (if k + 1 == lead {
                1int
            } else {
                0
            }),
    ensures
        after.decided(upto) == before.decided(upto) + (if 1 <= lead <= upto {
            1int
        } else {
            0
        }),
    decreases upto,
{
    if upto > 0 {
        lemma_decided_grows(after, before, lead, upto - 1);
    }
}

/// In a run of trials every trial is decided: where the hole cards and
/// the cards of the board are all different and the board can be filled,
/// the trials with one leader, with two, and so on, are together all the
/// trials. With the columns of a tally, in which a trial with `k` leaders
/// counts once for each of them, the shares of the hands, a `k`-th for
/// each such trial, add up to the number of trials.
pub proof fn lemma_run_is_decided(hands: Seq<Hand>, board: Board, decks: Seq<Seq<Card>>, history: Seq<EquityTally>, i: int)
    requires
        1 <= hands.len() <= usize::MAX,
        known_cards(hands, board).no_duplicates(),
        board_can_fill(hands, board),
        is_trial_run(hands, board, decks, history),
        0 <= i < history.len(),
    ensures
        history[i].trials == i,
        history[i].hands() == hands.len(),
        history[i].ways@.len() == hands.len(),
        history[i].decided(hands.len() as int) == history[i].trials,
    decreases i,
{
    let n = hands.len() as int;
    if i == 0 {
        lemma_decided_zero(history[0], n);
    } else {
        lemma_run_is_decided(hands, board, decks, history, i - 1);
        let lead = trial_leaders(hands, board, decks[i - 1]);
        lemma_trial_is_decided(hands, board, decks[i - 1]);
        assert(history[i - 1 + 1].records(history[i - 1], lead));
        lemma_decided_grows(history[i], history[i - 1], lead.len() as int, n);
    }
}

} // verus!
