use poker_core::cards::{get_all_cards, get_all_numbers, Board, Card, CardNumber, CardSuit, Hand, HandRank, Winner};

// Helper to create cards easily
fn c(rank: CardNumber, suit: CardSuit) -> Card {
    Card(rank, suit)
}

fn make_board(flop: Option<[Card; 3]>, turn: Option<Card>, river: Option<Card>) -> Board {
    Board {
        flop: flop.map(|[a, b, c]| (a, b, c)),
        turn,
        river,
    }
}

#[test]
fn test_card_display() {
    let card = c(CardNumber::Ace, CardSuit::Spades);
    assert_eq!(card.label(), "A♠");

    let card = c(CardNumber::Ten, CardSuit::Hearts);
    assert_eq!(card.label(), "T♥");

    let card = c(CardNumber::Two, CardSuit::Diamonds);
    assert_eq!(card.label(), "2♦");
}

#[test]
fn test_royal_flush() {
    let hand = Hand(
        c(CardNumber::Ace, CardSuit::Spades),
        c(CardNumber::King, CardSuit::Spades),
    );
    let board = make_board(
        Some([
            c(CardNumber::Queen, CardSuit::Spades),
            c(CardNumber::Jack, CardSuit::Spades),
            c(CardNumber::Ten, CardSuit::Spades),
        ]),
        Some(c(CardNumber::Two, CardSuit::Hearts)),
        Some(c(CardNumber::Three, CardSuit::Clubs)),
    );

    let best = hand.best(&board).unwrap();
    assert_eq!(best.rank(), HandRank::RoyalFlush);
}

#[test]
fn test_straight_flush() {
    let hand = Hand(
        c(CardNumber::Nine, CardSuit::Hearts),
        c(CardNumber::Eight, CardSuit::Hearts),
    );
    let board = make_board(
        Some([
            c(CardNumber::Seven, CardSuit::Hearts),
            c(CardNumber::Six, CardSuit::Hearts),
            c(CardNumber::Five, CardSuit::Hearts),
        ]),
        Some(c(CardNumber::Two, CardSuit::Clubs)),
        Some(c(CardNumber::Three, CardSuit::Diamonds)),
    );

    let best = hand.best(&board).unwrap();
    assert_eq!(best.rank(), HandRank::StraightFlush);
}

#[test]
fn test_four_of_a_kind() {
    let hand = Hand(
        c(CardNumber::King, CardSuit::Spades),
        c(CardNumber::King, CardSuit::Hearts),
    );
    let board = make_board(
        Some([
            c(CardNumber::King, CardSuit::Diamonds),
            c(CardNumber::King, CardSuit::Clubs),
            c(CardNumber::Ace, CardSuit::Spades),
        ]),
        Some(c(CardNumber::Two, CardSuit::Hearts)),
        Some(c(CardNumber::Three, CardSuit::Clubs)),
    );

    let best = hand.best(&board).unwrap();
    assert_eq!(best.rank(), HandRank::FourOfAKind);
}

#[test]
fn test_full_house() {
    let hand = Hand(
        c(CardNumber::Queen, CardSuit::Spades),
        c(CardNumber::Queen, CardSuit::Hearts),
    );
    let board = make_board(
        Some([
            c(CardNumber::Queen, CardSuit::Diamonds),
            c(CardNumber::Jack, CardSuit::Clubs),
            c(CardNumber::Jack, CardSuit::Spades),
        ]),
        Some(c(CardNumber::Two, CardSuit::Hearts)),
        Some(c(CardNumber::Three, CardSuit::Clubs)),
    );

    let best = hand.best(&board).unwrap();
    assert_eq!(best.rank(), HandRank::FullHouse);
}

#[test]
fn test_flush() {
    let hand = Hand(
        c(CardNumber::Ace, CardSuit::Clubs),
        c(CardNumber::Ten, CardSuit::Clubs),
    );
    let board = make_board(
        Some([
            c(CardNumber::Seven, CardSuit::Clubs),
            c(CardNumber::Four, CardSuit::Clubs),
            c(CardNumber::Two, CardSuit::Clubs),
        ]),
        Some(c(CardNumber::King, CardSuit::Hearts)),
        Some(c(CardNumber::Three, CardSuit::Diamonds)),
    );

    let best = hand.best(&board).unwrap();
    assert_eq!(best.rank(), HandRank::Flush);
}

#[test]
fn test_straight() {
    let hand = Hand(
        c(CardNumber::Nine, CardSuit::Spades),
        c(CardNumber::Eight, CardSuit::Hearts),
    );
    let board = make_board(
        Some([
            c(CardNumber::Seven, CardSuit::Clubs),
            c(CardNumber::Six, CardSuit::Diamonds),
            c(CardNumber::Five, CardSuit::Spades),
        ]),
        Some(c(CardNumber::Two, CardSuit::Hearts)),
        Some(c(CardNumber::King, CardSuit::Clubs)),
    );

    let best = hand.best(&board).unwrap();
    assert_eq!(best.rank(), HandRank::Straight);
}

#[test]
fn test_wheel_straight() {
    // A-2-3-4-5 (wheel)
    let hand = Hand(
        c(CardNumber::Ace, CardSuit::Spades),
        c(CardNumber::Two, CardSuit::Hearts),
    );
    let board = make_board(
        Some([
            c(CardNumber::Three, CardSuit::Clubs),
            c(CardNumber::Four, CardSuit::Diamonds),
            c(CardNumber::Five, CardSuit::Spades),
        ]),
        Some(c(CardNumber::King, CardSuit::Hearts)),
        Some(c(CardNumber::Queen, CardSuit::Clubs)),
    );

    let best = hand.best(&board).unwrap();
    assert_eq!(best.rank(), HandRank::Straight);
}

#[test]
fn test_three_of_a_kind() {
    let hand = Hand(
        c(CardNumber::Jack, CardSuit::Spades),
        c(CardNumber::Jack, CardSuit::Hearts),
    );
    let board = make_board(
        Some([
            c(CardNumber::Jack, CardSuit::Diamonds),
            c(CardNumber::Ace, CardSuit::Clubs),
            c(CardNumber::King, CardSuit::Spades),
        ]),
        Some(c(CardNumber::Two, CardSuit::Hearts)),
        Some(c(CardNumber::Three, CardSuit::Clubs)),
    );

    let best = hand.best(&board).unwrap();
    assert_eq!(best.rank(), HandRank::ThreeOfAKind);
}

#[test]
fn test_two_pair() {
    let hand = Hand(
        c(CardNumber::Ace, CardSuit::Spades),
        c(CardNumber::Ace, CardSuit::Hearts),
    );
    let board = make_board(
        Some([
            c(CardNumber::King, CardSuit::Diamonds),
            c(CardNumber::King, CardSuit::Clubs),
            c(CardNumber::Two, CardSuit::Spades),
        ]),
        Some(c(CardNumber::Three, CardSuit::Hearts)),
        Some(c(CardNumber::Four, CardSuit::Clubs)),
    );

    let best = hand.best(&board).unwrap();
    assert_eq!(best.rank(), HandRank::TwoPair);
}

#[test]
fn test_pair() {
    let hand = Hand(
        c(CardNumber::Queen, CardSuit::Spades),
        c(CardNumber::Queen, CardSuit::Hearts),
    );
    let board = make_board(
        Some([
            c(CardNumber::Ace, CardSuit::Diamonds),
            c(CardNumber::King, CardSuit::Clubs),
            c(CardNumber::Jack, CardSuit::Spades),
        ]),
        Some(c(CardNumber::Two, CardSuit::Hearts)),
        Some(c(CardNumber::Three, CardSuit::Clubs)),
    );

    let best = hand.best(&board).unwrap();
    assert_eq!(best.rank(), HandRank::Pair);
}

#[test]
fn test_high_card() {
    let hand = Hand(
        c(CardNumber::Ace, CardSuit::Spades),
        c(CardNumber::King, CardSuit::Hearts),
    );
    let board = make_board(
        Some([
            c(CardNumber::Nine, CardSuit::Diamonds),
            c(CardNumber::Seven, CardSuit::Clubs),
            c(CardNumber::Four, CardSuit::Spades),
        ]),
        Some(c(CardNumber::Two, CardSuit::Hearts)),
        Some(c(CardNumber::Three, CardSuit::Clubs)),
    );

    let best = hand.best(&board).unwrap();
    assert_eq!(best.rank(), HandRank::HighCard);
}

#[test]
fn test_hand_comparison_different_ranks() {
    // Full house vs flush
    let hand1 = Hand(
        c(CardNumber::King, CardSuit::Spades),
        c(CardNumber::King, CardSuit::Hearts),
    );
    let hand2 = Hand(
        c(CardNumber::Ace, CardSuit::Clubs),
        c(CardNumber::Ten, CardSuit::Clubs),
    );
    let board = make_board(
        Some([
            c(CardNumber::King, CardSuit::Diamonds),
            c(CardNumber::Queen, CardSuit::Clubs),
            c(CardNumber::Jack, CardSuit::Clubs),
        ]),
        Some(c(CardNumber::Nine, CardSuit::Clubs)),
        Some(c(CardNumber::Queen, CardSuit::Hearts)),
    );

    let full1 = hand1.best(&board).unwrap();
    let full2 = hand2.best(&board).unwrap();

    assert_eq!(full1.rank(), HandRank::FullHouse);
    assert_eq!(full2.rank(), HandRank::Flush);
    assert_eq!(full1.compare(&full2), Winner::Hand1);
}

#[test]
fn test_hand_comparison_same_rank_different_kicker() {
    // Both have pair of aces, but different kickers
    let hand1 = Hand(
        c(CardNumber::Ace, CardSuit::Spades),
        c(CardNumber::King, CardSuit::Hearts),
    );
    let hand2 = Hand(
        c(CardNumber::Ace, CardSuit::Diamonds),
        c(CardNumber::Queen, CardSuit::Clubs),
    );
    let board = make_board(
        Some([
            c(CardNumber::Ace, CardSuit::Hearts),
            c(CardNumber::Nine, CardSuit::Clubs),
            c(CardNumber::Seven, CardSuit::Spades),
        ]),
        Some(c(CardNumber::Six, CardSuit::Hearts)),
        Some(c(CardNumber::Two, CardSuit::Diamonds)),
    );

    let full1 = hand1.best(&board).unwrap();
    let full2 = hand2.best(&board).unwrap();

    assert_eq!(full1.rank(), HandRank::Pair);
    assert_eq!(full2.rank(), HandRank::Pair);
    assert_eq!(full1.compare(&full2), Winner::Hand1); // King kicker beats Queen
}

#[test]
fn test_hand_comparison_tie() {
    // Both have same straight on the board
    let hand1 = Hand(
        c(CardNumber::Two, CardSuit::Spades),
        c(CardNumber::Three, CardSuit::Hearts),
    );
    let hand2 = Hand(
        c(CardNumber::Two, CardSuit::Diamonds),
        c(CardNumber::Three, CardSuit::Clubs),
    );
    let board = make_board(
        Some([
            c(CardNumber::Ten, CardSuit::Hearts),
            c(CardNumber::Jack, CardSuit::Clubs),
            c(CardNumber::Queen, CardSuit::Spades),
        ]),
        Some(c(CardNumber::King, CardSuit::Hearts)),
        Some(c(CardNumber::Ace, CardSuit::Diamonds)),
    );

    let full1 = hand1.best(&board).unwrap();
    let full2 = hand2.best(&board).unwrap();

    assert_eq!(full1.rank(), HandRank::Straight);
    assert_eq!(full2.rank(), HandRank::Straight);
    assert_eq!(full1.compare(&full2), Winner::Tie);
}

#[test]
fn test_get_all_cards() {
    let cards = get_all_cards();
    assert_eq!(cards.len(), 52);

    // Check we have 4 of each rank
    for number in get_all_numbers() {
        let count = cards.iter().filter(|c| c.number() == number).count();
        assert_eq!(count, 4, "Should have 4 cards of {:?}", number);
    }

    // Check we have 13 of each suit
    for suit in CardSuit::ALL {
        let count = cards.iter().filter(|c| c.suit() == suit).count();
        assert_eq!(count, 13, "Should have 13 cards of {:?}", suit);
    }
}

#[test]
fn test_hand_rank_ordering() {
    assert!(HandRank::RoyalFlush > HandRank::StraightFlush);
    assert!(HandRank::StraightFlush > HandRank::FourOfAKind);
    assert!(HandRank::FourOfAKind > HandRank::FullHouse);
    assert!(HandRank::FullHouse > HandRank::Flush);
    assert!(HandRank::Flush > HandRank::Straight);
    assert!(HandRank::Straight > HandRank::ThreeOfAKind);
    assert!(HandRank::ThreeOfAKind > HandRank::TwoPair);
    assert!(HandRank::TwoPair > HandRank::Pair);
    assert!(HandRank::Pair > HandRank::HighCard);
}
