use poker_core::best::determine_winner;
use poker_core::cards::{get_all_cards, Board, Card, CardNumber, CardSuit, FullHand, Hand, HandRank, Winner};

fn c(rank: CardNumber, suit: CardSuit) -> Card {
    Card(rank, suit)
}

struct Lcg(u64);

impl Lcg {
    fn next(&mut self) -> u64 {
        self.0 = self.0.wrapping_mul(6364136223846793005).wrapping_add(1442695040888963407);
        self.0 >> 33
    }

    fn below(&mut self, n: usize) -> usize {
        (self.next() % n as u64) as usize
    }
}

fn draw(rng: &mut Lcg, n: usize) -> Vec<Card> {
    let mut deck = get_all_cards();
    let mut out = Vec::new();
    for _ in 0..n {
        let i = rng.below(deck.len());
        out.push(deck.swap_remove(i));
    }
    out
}

fn board_of(cards: &[Card]) -> Board {
    Board {
        flop: if cards.len() >= 3 { Some((cards[0], cards[1], cards[2])) } else { None },
        turn: if cards.len() >= 4 { Some(cards[3]) } else { None },
        river: if cards.len() >= 5 { Some(cards[4]) } else { None },
    }
}

fn five_subsets(cards: &[Card]) -> Vec<FullHand> {
    let n = cards.len();
    let mut out = Vec::new();
    for a in 0..n {
        for b in a + 1..n {
            for d in b + 1..n {
                for e in d + 1..n {
                    for f in e + 1..n {
                        out.push(FullHand(cards[a], cards[b], cards[d], cards[e], cards[f]));
                    }
                }
            }
        }
    }
    out
}

#[test]
fn best_is_not_beaten_by_any_five_cards() {
    let mut rng = Lcg(7);
    for round in 0..4000 {
        let n = 5 + round % 3;
        let cards = draw(&mut rng, n);
        let best = Hand(cards[0], cards[1]).best(&board_of(&cards[2..])).unwrap();
        let chosen = [best.0, best.1, best.2, best.3, best.4];
        for (i, card) in chosen.iter().enumerate() {
            assert!(cards.contains(card));
            assert!(!chosen[..i].contains(card));
        }
        for other in five_subsets(&cards) {
            assert_ne!(best.compare(&other), Winner::Hand2, "{:?} against {:?}", best, other);
        }
    }
}

#[test]
fn best_needs_five_cards() {
    let mut rng = Lcg(11);
    for n in 2..5 {
        let cards = draw(&mut rng, n);
        let board = Board {
            flop: None,
            turn: if n >= 3 { Some(cards[2]) } else { None },
            river: if n >= 4 { Some(cards[3]) } else { None },
        };
        assert!(Hand(cards[0], cards[1]).best(&board).is_none());
    }
    let cards = draw(&mut rng, 5);
    assert!(Hand(cards[0], cards[1]).best(&board_of(&cards[2..])).is_some());
}

#[test]
fn comparison_is_antisymmetric_and_transitive() {
    let mut rng = Lcg(3);
    let mut hands = Vec::new();
    for _ in 0..60 {
        let cards = draw(&mut rng, 5);
        hands.push(FullHand(cards[0], cards[1], cards[2], cards[3], cards[4]));
    }
    hands.push(FullHand(
        c(CardNumber::Ace, CardSuit::Spades),
        c(CardNumber::Two, CardSuit::Hearts),
        c(CardNumber::Three, CardSuit::Clubs),
        c(CardNumber::Four, CardSuit::Diamonds),
        c(CardNumber::Five, CardSuit::Spades),
    ));
    hands.push(FullHand(
        c(CardNumber::Six, CardSuit::Spades),
        c(CardNumber::Two, CardSuit::Hearts),
        c(CardNumber::Three, CardSuit::Clubs),
        c(CardNumber::Four, CardSuit::Diamonds),
        c(CardNumber::Five, CardSuit::Spades),
    ));
    for a in &hands {
        assert_eq!(a.compare(a), Winner::Tie);
        for b in &hands {
            let ab = a.compare(b);
            let ba = b.compare(a);
            match ab {
                Winner::Hand1 => assert_eq!(ba, Winner::Hand2),
                Winner::Hand2 => assert_eq!(ba, Winner::Hand1),
                Winner::Tie => assert_eq!(ba, Winner::Tie),
            }
            for d in &hands {
                if ab == Winner::Hand1 && b.compare(d) == Winner::Hand1 {
                    assert_eq!(a.compare(d), Winner::Hand1);
                }
            }
        }
    }
}

#[test]
fn wheel_loses_to_six_high_straight() {
    let wheel = FullHand(
        c(CardNumber::Five, CardSuit::Spades),
        c(CardNumber::Four, CardSuit::Diamonds),
        c(CardNumber::Three, CardSuit::Clubs),
        c(CardNumber::Two, CardSuit::Hearts),
        c(CardNumber::Ace, CardSuit::Spades),
    );
    let six_high = FullHand(
        c(CardNumber::Six, CardSuit::Hearts),
        c(CardNumber::Five, CardSuit::Clubs),
        c(CardNumber::Four, CardSuit::Spades),
        c(CardNumber::Three, CardSuit::Diamonds),
        c(CardNumber::Two, CardSuit::Clubs),
    );
    assert_eq!(wheel.rank(), HandRank::Straight);
    assert!(wheel.is_wheel());
    assert_eq!(six_high.rank(), HandRank::Straight);
    assert!(!six_high.is_wheel());
    assert_eq!(wheel.compare(&six_high), Winner::Hand2);
    assert_eq!(six_high.compare(&wheel), Winner::Hand1);
}

#[test]
fn wheel_is_found_with_the_five_first() {
    let hand = Hand(c(CardNumber::Ace, CardSuit::Spades), c(CardNumber::Two, CardSuit::Hearts));
    let board = Board {
        flop: Some((
            c(CardNumber::Three, CardSuit::Clubs),
            c(CardNumber::Four, CardSuit::Diamonds),
            c(CardNumber::Five, CardSuit::Spades),
        )),
        turn: Some(c(CardNumber::King, CardSuit::Hearts)),
        river: Some(c(CardNumber::Queen, CardSuit::Clubs)),
    };
    let best = hand.best(&board).unwrap();
    assert_eq!(
        best,
        FullHand(
            c(CardNumber::Five, CardSuit::Spades),
            c(CardNumber::Four, CardSuit::Diamonds),
            c(CardNumber::Three, CardSuit::Clubs),
            c(CardNumber::Two, CardSuit::Hearts),
            c(CardNumber::Ace, CardSuit::Spades),
        )
    );
}

#[test]
fn suited_wheel_is_a_straight_flush_and_not_royal() {
    let hand = FullHand(
        c(CardNumber::Ace, CardSuit::Clubs),
        c(CardNumber::Two, CardSuit::Clubs),
        c(CardNumber::Three, CardSuit::Clubs),
        c(CardNumber::Four, CardSuit::Clubs),
        c(CardNumber::Five, CardSuit::Clubs),
    );
    assert_eq!(hand.rank(), HandRank::StraightFlush);
    let royal = FullHand(
        c(CardNumber::Ten, CardSuit::Clubs),
        c(CardNumber::Jack, CardSuit::Clubs),
        c(CardNumber::Queen, CardSuit::Clubs),
        c(CardNumber::King, CardSuit::Clubs),
        c(CardNumber::Ace, CardSuit::Clubs),
    );
    assert_eq!(royal.rank(), HandRank::RoyalFlush);
    assert_eq!(royal.compare(&hand), Winner::Hand1);
}

#[test]
fn ranked_groups_put_larger_groups_first() {
    let hand = FullHand(
        c(CardNumber::Two, CardSuit::Clubs),
        c(CardNumber::Ace, CardSuit::Hearts),
        c(CardNumber::Two, CardSuit::Spades),
        c(CardNumber::King, CardSuit::Clubs),
        c(CardNumber::Two, CardSuit::Hearts),
    );
    assert_eq!(hand.get_ranked_groups(), vec![CardNumber::Two, CardNumber::Ace, CardNumber::King]);
    assert_eq!(hand.get_counts(), vec![3, 1, 1]);
    assert_eq!(hand.rank(), HandRank::ThreeOfAKind);
    let sorted = hand.cards();
    assert_eq!(sorted[0], c(CardNumber::Ace, CardSuit::Hearts));
    assert_eq!(sorted[1], c(CardNumber::King, CardSuit::Clubs));
    assert_eq!(sorted[2], c(CardNumber::Two, CardSuit::Clubs));
    assert_eq!(sorted[3], c(CardNumber::Two, CardSuit::Spades));
    assert_eq!(sorted[4], c(CardNumber::Two, CardSuit::Hearts));
}

#[test]
fn full_house_takes_the_higher_trio_of_two() {
    let hand = Hand(c(CardNumber::Nine, CardSuit::Clubs), c(CardNumber::Nine, CardSuit::Hearts));
    let board = Board {
        flop: Some((
            c(CardNumber::Nine, CardSuit::Spades),
            c(CardNumber::King, CardSuit::Clubs),
            c(CardNumber::King, CardSuit::Hearts),
        )),
        turn: Some(c(CardNumber::King, CardSuit::Spades)),
        river: Some(c(CardNumber::Two, CardSuit::Clubs)),
    };
    let best = hand.best(&board).unwrap();
    assert_eq!(best.rank(), HandRank::FullHouse);
    assert_eq!(best.get_ranked_groups(), vec![CardNumber::King, CardNumber::Nine]);
}

#[test]
fn determine_winner_compares_the_best_hands() {
    let board = Board {
        flop: Some((
            c(CardNumber::Ace, CardSuit::Hearts),
            c(CardNumber::Nine, CardSuit::Clubs),
            c(CardNumber::Seven, CardSuit::Spades),
        )),
        turn: Some(c(CardNumber::Six, CardSuit::Hearts)),
        river: Some(c(CardNumber::Two, CardSuit::Diamonds)),
    };
    let first = Hand(c(CardNumber::Ace, CardSuit::Spades), c(CardNumber::King, CardSuit::Hearts));
    let second = Hand(c(CardNumber::Ace, CardSuit::Diamonds), c(CardNumber::Queen, CardSuit::Clubs));
    assert_eq!(determine_winner(&first, &second, &board), Some(Winner::Hand1));
    assert_eq!(determine_winner(&second, &first, &board), Some(Winner::Hand2));
    let empty = Board { flop: None, turn: None, river: None };
    assert_eq!(determine_winner(&first, &second, &empty), None);
}

#[test]
fn board_fills_from_the_end_of_the_deck() {
    let all = get_all_cards();
    let mut deck = all.clone();
    let empty = Board { flop: None, turn: None, river: None };
    let filled = empty.fill_from_deck(&mut deck);
    assert_eq!(filled.cards(), vec![all[51], all[50], all[49], all[48], all[47]]);
    assert_eq!(deck.len(), 47);

    let mut short = vec![all[0], all[1]];
    let filled = empty.fill_from_deck(&mut short);
    assert!(filled.flop.is_none());
    assert!(filled.turn.is_none());
    assert!(filled.river.is_none());
    assert!(short.is_empty());

    let partial = Board { flop: Some((all[0], all[1], all[2])), turn: None, river: None };
    let mut deck = vec![all[10], all[11], all[12]];
    let filled = partial.fill_from_deck(&mut deck);
    assert_eq!(filled.cards(), vec![all[0], all[1], all[2], all[12], all[11]]);
    assert_eq!(deck, vec![all[10]]);
}

#[test]
fn comparison_orders_hands_with_ties() {
    let mut rng = Lcg(11);
    let mut hands = Vec::new();
    for _ in 0..40 {
        let cards = draw(&mut rng, 5);
        hands.push(FullHand(cards[0], cards[1], cards[2], cards[3], cards[4]));
    }
    // The same ranks in other suits tie with one another.
    for suits in [
        [CardSuit::Spades, CardSuit::Hearts, CardSuit::Clubs, CardSuit::Diamonds, CardSuit::Spades],
        [CardSuit::Hearts, CardSuit::Clubs, CardSuit::Diamonds, CardSuit::Spades, CardSuit::Hearts],
        [CardSuit::Clubs, CardSuit::Diamonds, CardSuit::Spades, CardSuit::Hearts, CardSuit::Clubs],
    ] {
        hands.push(FullHand(
            c(CardNumber::King, suits[0]),
            c(CardNumber::King, suits[1]),
            c(CardNumber::Nine, suits[2]),
            c(CardNumber::Five, suits[3]),
            c(CardNumber::Two, suits[4]),
        ));
        hands.push(FullHand(
            c(CardNumber::Ace, suits[0]),
            c(CardNumber::Two, suits[1]),
            c(CardNumber::Three, suits[2]),
            c(CardNumber::Four, suits[3]),
            c(CardNumber::Five, suits[4]),
        ));
    }
    let mut ties = 0;
    for a in &hands {
        for b in &hands {
            let ab = a.compare(b);
            if ab == Winner::Hand2 {
                continue;
            }
            for d in &hands {
                let bd = b.compare(d);
                if bd == Winner::Hand2 {
                    continue;
                }
                let ad = a.compare(d);
                assert_ne!(ad, Winner::Hand2);
                if ab == Winner::Hand1 || bd == Winner::Hand1 {
                    assert_eq!(ad, Winner::Hand1);
                } else {
                    assert_eq!(ad, Winner::Tie);
                    ties += 1;
                }
            }
        }
    }
    assert!(ties > hands.len());
}
