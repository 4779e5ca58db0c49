use poker_core::cards::{get_all_cards, get_all_numbers, Card, CardNumber, CardSuit, HandRank};
use poker_core::protocol::{card_to_info, cards_to_infos, default_starting_bbs, BlindConfig, CardInfo, PlayerAction};
use poker_core::select::{contains_card, count_cards, select_cards, sort_desc, CardFilter};

#[test]
fn wire_form_of_cards() {
    for card in get_all_cards() {
        let info = card_to_info(&card);
        assert_eq!(info.rank, card.number().value());
        assert_eq!(info.suit, card.suit().code());
        assert_eq!(info.to_card(), card);
    }
    let ace = card_to_info(&Card(CardNumber::Ace, CardSuit::Hearts));
    assert_eq!((ace.rank, ace.suit), (14, 3));
    assert_eq!(CardInfo { rank: 2, suit: 0 }.to_card(), Card(CardNumber::Two, CardSuit::Diamonds));
    assert_eq!(CardInfo { rank: 13, suit: 1 }.to_card(), Card(CardNumber::King, CardSuit::Spades));
    assert_eq!(CardInfo { rank: 10, suit: 2 }.to_card(), Card(CardNumber::Ten, CardSuit::Clubs));
    // What is out of range reads as the lowest.
    assert_eq!(CardInfo { rank: 0, suit: 9 }.to_card(), Card(CardNumber::Two, CardSuit::Diamonds));
    assert_eq!(CardInfo { rank: 15, suit: 4 }.to_card(), Card(CardNumber::Two, CardSuit::Diamonds));
    let infos = cards_to_infos(&vec![Card(CardNumber::Ten, CardSuit::Clubs), Card(CardNumber::Two, CardSuit::Spades)]);
    assert_eq!(infos, vec![CardInfo { rank: 10, suit: 2 }, CardInfo { rank: 2, suit: 1 }]);
}

#[test]
fn cards_as_text() {
    assert_eq!(CardInfo { rank: 10, suit: 3 }.rank_str(), "10");
    assert_eq!(CardInfo { rank: 14, suit: 3 }.rank_str(), "A");
    assert_eq!(CardInfo { rank: 11, suit: 3 }.rank_str(), "J");
    assert_eq!(CardInfo { rank: 1, suit: 3 }.rank_str(), "?");
    assert_eq!(CardInfo { rank: 2, suit: 0 }.suit_str(), "♦");
    assert_eq!(CardInfo { rank: 2, suit: 1 }.suit_str(), "♠");
    assert_eq!(CardInfo { rank: 2, suit: 2 }.suit_str(), "♣");
    assert_eq!(CardInfo { rank: 2, suit: 3 }.suit_str(), "♥");
    assert_eq!(CardInfo { rank: 2, suit: 4 }.suit_str(), "?");
    assert_eq!(CardInfo { rank: 10, suit: 3 }.label(), "10♥");
    assert_eq!(CardNumber::Ten.symbol(), "T");
    assert_eq!(CardSuit::Clubs.symbol(), "♣");
    assert_eq!(HandRank::ThreeOfAKind.label(), "Three of a Kind");
    assert_eq!(HandRank::HighCard.label(), "High Card");
    assert_eq!(HandRank::RoyalFlush.ordinal(), 9);
    assert_eq!(PlayerAction::AllIn.label(), "All-In");
    assert_eq!(PlayerAction::Fold.label(), "Fold");
    assert_eq!(CardNumber::from_value(12), CardNumber::Queen);
    assert_eq!(CardSuit::from_code(3), CardSuit::Hearts);
}

#[test]
fn fresh_deck_is_ordered_by_suit_then_rank() {
    let cards = get_all_cards();
    assert_eq!(cards[0], Card(CardNumber::Two, CardSuit::Diamonds));
    assert_eq!(cards[12], Card(CardNumber::Ace, CardSuit::Diamonds));
    assert_eq!(cards[13], Card(CardNumber::Two, CardSuit::Spades));
    assert_eq!(cards[51], Card(CardNumber::Ace, CardSuit::Hearts));
    assert_eq!(get_all_numbers()[0], CardNumber::Two);
    assert_eq!(get_all_numbers()[12], CardNumber::Ace);
    assert_eq!(get_all_numbers().len(), 13);
    assert_eq!(CardSuit::ALL.len(), 4);
}

#[test]
fn blinds_configuration() {
    assert_eq!(BlindConfig::default(), BlindConfig { interval_secs: 0, increase_percent: 0 });
    assert!(!BlindConfig::default().is_enabled());
    assert!(!BlindConfig { interval_secs: 60, increase_percent: 0 }.is_enabled());
    assert!(!BlindConfig { interval_secs: 0, increase_percent: 50 }.is_enabled());
    assert!(BlindConfig { interval_secs: 60, increase_percent: 50 }.is_enabled());
    assert_eq!(default_starting_bbs(), 100);
}

#[test]
fn selections_keep_the_order() {
    let cards = vec![
        Card(CardNumber::Two, CardSuit::Clubs),
        Card(CardNumber::Ace, CardSuit::Hearts),
        Card(CardNumber::Two, CardSuit::Spades),
        Card(CardNumber::King, CardSuit::Clubs),
        Card(CardNumber::Ace, CardSuit::Clubs),
    ];
    assert_eq!(select_cards(&cards, CardFilter::Rank(2)), vec![cards[0], cards[2]]);
    assert_eq!(select_cards(&cards, CardFilter::NotRank(2)), vec![cards[1], cards[3], cards[4]]);
    assert_eq!(select_cards(&cards, CardFilter::NotRanks(2, 14)), vec![cards[3]]);
    assert_eq!(select_cards(&cards, CardFilter::Suit(CardSuit::Clubs)), vec![cards[0], cards[3], cards[4]]);
    assert_eq!(count_cards(&cards, CardFilter::Suit(CardSuit::Hearts)), 1);
    assert!(contains_card(&cards, cards[3]));
    assert!(!contains_card(&cards, Card(CardNumber::Three, CardSuit::Clubs)));
    assert_eq!(sort_desc(&cards), vec![cards[1], cards[4], cards[3], cards[0], cards[2]]);
}
