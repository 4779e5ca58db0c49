//! Playing cards, boards and five-card hands.

use vstd::prelude::*;
use vstd::string::StringExecFns;

verus! {

/// A card suit.
#[derive(Debug, Clone, Copy, PartialEq, Eq, Hash, Structural)]
pub enum CardSuit {
    Diamonds,
    Spades,
    Clubs,
    Hearts,
}

impl CardSuit {
    /// All suits in standard order.
    pub const ALL: [CardSuit; 4] = [
        CardSuit::Diamonds,
        CardSuit::Spades,
        CardSuit::Clubs,
        CardSuit::Hearts,
    ];

    /// Position of the suit in the standard order, which is also its wire code.
    pub open spec fn spec_code(self) -> int {
        match self {
            CardSuit::Diamonds => 0,
            CardSuit::Spades => 1,
            CardSuit::Clubs => 2,
            CardSuit::Hearts => 3,
        }
    }

    /// The suit with wire code `code`; Diamonds for any other number.
    pub open spec fn spec_from_code(code: int) -> CardSuit {
        if code == 1 {
            CardSuit::Spades
        } else if code == 2 {
            CardSuit::Clubs
        } else if code == 3 {
            CardSuit::Hearts
        } else {
            CardSuit::Diamonds
        }
    }

    pub open spec fn spec_symbol(self) -> Seq<char> {
        match self {
            CardSuit::Diamonds => "♦"@,
            CardSuit::Spades => "♠"@,
            CardSuit::Clubs => "♣"@,
            CardSuit::Hearts => "♥"@,
        }
    }

    pub fn code(self) -> (r: u8)
        ensures
            r == self.spec_code(),
            CardSuit::spec_from_code(r as int) == self,
    {
        match self {
            CardSuit::Diamonds => 0,
            CardSuit::Spades => 1,
            CardSuit::Clubs => 2,
            CardSuit::Hearts => 3,
        }
    }

    pub fn from_code(code: u8) -> (s: CardSuit)
        ensures
            s == CardSuit::spec_from_code(code as int),
    {
        if code == 1 {
            CardSuit::Spades
        } else if code == 2 {
            CardSuit::Clubs
        } else if code == 3 {
            CardSuit::Hearts
        } else {
            CardSuit::Diamonds
        }
    }

    /// The suit as a display symbol.
    pub fn symbol(&self) -> (s: &'static str)
        ensures
            s@ == self.spec_symbol(),
    {
        match self {
            CardSuit::Diamonds => "♦",
            CardSuit::Spades => "♠",
            CardSuit::Clubs => "♣",
            CardSuit::Hearts => "♥",
        }
    }
}

/// A card rank, Two (lowest) to Ace (highest).
#[derive(Debug, Clone, Copy, PartialEq, Eq, PartialOrd, Ord, Hash, Structural)]
pub enum CardNumber {
    Two,
    Three,
    Four,
    Five,
    Six,
    Seven,
    Eight,
    Nine,
    Ten,
    Jack,
    Queen,
    King,
    Ace,
}

impl CardNumber {
    /// The rank as a number, 2 to 14 with the Ace at 14.
    pub open spec fn spec_value(self) -> int {
        match self {
            CardNumber::Two => 2,
            CardNumber::Three => 3,
            CardNumber::Four => 4,
            CardNumber::Five => 5,
            CardNumber::Six => 6,
            CardNumber::Seven => 7,
            CardNumber::Eight => 8,
            CardNumber::Nine => 9,
            CardNumber::Ten => 10,
            CardNumber::Jack => 11,
            CardNumber::Queen => 12,
            CardNumber::King => 13,
            CardNumber::Ace => 14,
        }
    }

    /// The rank whose number is `v`; Two for a number outside 2 to 14.
    pub open spec fn spec_from_value(v: int) -> CardNumber {
        if v == 3 {
            CardNumber::Three
        } else if v == 4 {
            CardNumber::Four
        } else if v == 5 {
            CardNumber::Five
        } else if v == 6 {
            CardNumber::Six
        } else if v == 7 {
            CardNumber::Seven
        } else if v == 8 {
            CardNumber::Eight
        } else if v == 9 {
            CardNumber::Nine
        } else if v == 10 {
            CardNumber::Ten
        } else if v == 11 {
            CardNumber::Jack
        } else if v == 12 {
            CardNumber::Queen
        } else if v == 13 {
            CardNumber::King
        } else if v == 14 {
            CardNumber::Ace
        } else {
            CardNumber::Two
        }
    }

    pub open spec fn spec_symbol(self) -> Seq<char> {
        match self {
            CardNumber::Two => "2"@,
            CardNumber::Three => "3"@,
            CardNumber::Four => "4"@,
            CardNumber::Five => "5"@,
            CardNumber::Six => "6"@,
            CardNumber::Seven => "7"@,
            CardNumber::Eight => "8"@,
            CardNumber::Nine => "9"@,
            CardNumber::Ten => "T"@,
            CardNumber::Jack => "J"@,
            CardNumber::Queen => "Q"@,
            CardNumber::King => "K"@,
            CardNumber::Ace => "A"@,
        }
    }

    pub fn value(self) -> (r: u8)
        ensures
            r == self.spec_value(),
            2 <= r <= 14,
            CardNumber::spec_from_value(r as int) == self,
    {
        match self {
            CardNumber::Two => 2,
            CardNumber::Three => 3,
            CardNumber::Four => 4,
            CardNumber::Five => 5,
            CardNumber::Six => 6,
            CardNumber::Seven => 7,
            CardNumber::Eight => 8,
            CardNumber::Nine => 9,
            CardNumber::Ten => 10,
            CardNumber::Jack => 11,
            CardNumber::Queen => 12,
            CardNumber::King => 13,
            CardNumber::Ace => 14,
        }
    }

    pub fn from_value(v: u8) -> (n: CardNumber)
        ensures
            n == CardNumber::spec_from_value(v as int),
            2 <= v <= 14 ==> n.spec_value() == v,
    {
        if v == 3 {
            CardNumber::Three
        } else if v == 4 {
            CardNumber::Four
        } else if v == 5 {
            CardNumber::Five
        } else if v == 6 {
            CardNumber::Six
        } else if v == 7 {
            CardNumber::Seven
        } else if v == 8 {
            CardNumber::Eight
        } else if v == 9 {
            CardNumber::Nine
        } else if v == 10 {
            CardNumber::Ten
        } else if v == 11 {
            CardNumber::Jack
        } else if v == 12 {
            CardNumber::Queen
        } else if v == 13 {
            CardNumber::King
        } else if v == 14 {
            CardNumber::Ace
        } else {
            CardNumber::Two
        }
    }

    /// The rank as a display character.
    pub fn symbol(&self) -> (s: &'static str)
        ensures
            s@ == self.spec_symbol(),
    {
        match self {
            CardNumber::Two => "2",
            CardNumber::Three => "3",
            CardNumber::Four => "4",
            CardNumber::Five => "5",
            CardNumber::Six => "6",
            CardNumber::Seven => "7",
            CardNumber::Eight => "8",
            CardNumber::Nine => "9",
            CardNumber::Ten => "T",
            CardNumber::Jack => "J",
            CardNumber::Queen => "Q",
            CardNumber::King => "K",
            CardNumber::Ace => "A",
        }
    }
}

/// A playing card: a rank and a suit.
#[derive(Debug, Clone, Copy, PartialEq, Eq, Hash, Structural)]
pub struct Card(pub CardNumber, pub CardSuit);

impl Card {
    /// The rank as a number, 2 to 14.
    pub open spec fn rank(self) -> int {
        self.0.spec_value()
    }

    pub open spec fn spec_label(self) -> Seq<char> {
        self.0.spec_symbol() + self.1.spec_symbol()
    }

    pub fn number(&self) -> (n: CardNumber)
        ensures
            n == self.0,
    {
        self.0
    }

    pub fn suit(&self) -> (s: CardSuit)
        ensures
            s == self.1,
    {
        self.1
    }

    /// The rank as a number, 2 to 14.
    pub fn rank_value(&self) -> (r: u8)
        ensures
            r == self.rank(),
            2 <= r <= 14,
    {
        self.0.value()
    }

    /// The card as text: the rank's character followed by the suit's symbol.
    pub fn label(&self) -> (s: String)
        ensures
            s@ == self.spec_label(),
    {
        let mut s = String::from_str(self.0.symbol());
        s.append(self.1.symbol());
        s
    }
}

/// The 52 cards of a deck.
pub struct Deck(pub [Card; 52]);

/// The community cards: a flop of three, then a turn and a river card.
#[derive(Debug, Clone, Copy)]
pub struct Board {
    pub flop: Option<(Card, Card, Card)>,
    pub turn: Option<Card>,
    pub river: Option<Card>,
}

/// A player's two hole cards.
#[derive(Debug, Clone, Copy, PartialEq, Eq, Structural)]
pub struct Hand(pub Card, pub Card);

/// Five cards that are valued together.
#[derive(Debug, Clone, Copy, PartialEq, Eq, Structural)]
pub struct FullHand(pub Card, pub Card, pub Card, pub Card, pub Card);

/// The categories of five-card hands, weakest first.
#[derive(Debug, Clone, Copy, PartialEq, Eq, PartialOrd, Ord, Structural)]
pub enum HandRank {
    HighCard,
    Pair,
    TwoPair,
    ThreeOfAKind,
    Straight,
    Flush,
    FullHouse,
    FourOfAKind,
    StraightFlush,
    RoyalFlush,
}

impl HandRank {
    /// Position of the category in the order of strength, 0 for HighCard.
    pub open spec fn strength(self) -> int {
        match self {
            HandRank::HighCard => 0,
            HandRank::Pair => 1,
            HandRank::TwoPair => 2,
            HandRank::ThreeOfAKind => 3,
            HandRank::Straight => 4,
            HandRank::Flush => 5,
            HandRank::FullHouse => 6,
            HandRank::FourOfAKind => 7,
            HandRank::StraightFlush => 8,
            HandRank::RoyalFlush => 9,
        }
    }

    pub open spec fn spec_label(self) -> Seq<char> {
        match self {
            HandRank::HighCard => "High Card"@,
            HandRank::Pair => "Pair"@,
            HandRank::TwoPair => "Two Pair"@,
            HandRank::ThreeOfAKind => "Three of a Kind"@,
            HandRank::Straight => "Straight"@,
            HandRank::Flush => "Flush"@,
            HandRank::FullHouse => "Full House"@,
            HandRank::FourOfAKind => "Four of a Kind"@,
            HandRank::StraightFlush => "Straight Flush"@,
            HandRank::RoyalFlush => "Royal Flush"@,
        }
    }

    pub fn ordinal(self) -> (r: u8)
        ensures
            r == self.strength(),
    {
        match self {
            HandRank::HighCard => 0,
            HandRank::Pair => 1,
            HandRank::TwoPair => 2,
            HandRank::ThreeOfAKind => 3,
            HandRank::Straight => 4,
            HandRank::Flush => 5,
            HandRank::FullHouse => 6,
            HandRank::FourOfAKind => 7,
            HandRank::StraightFlush => 8,
            HandRank::RoyalFlush => 9,
        }
    }

    /// The category's name in words.
    pub fn label(&self) -> (s: &'static str)
        ensures
            s@ == self.spec_label(),
    {
        match self {
            HandRank::HighCard => "High Card",
            HandRank::Pair => "Pair",
            HandRank::TwoPair => "Two Pair",
            HandRank::ThreeOfAKind => "Three of a Kind",
            HandRank::Straight => "Straight",
            HandRank::Flush => "Flush",
            HandRank::FullHouse => "Full House",
            HandRank::FourOfAKind => "Four of a Kind",
            HandRank::StraightFlush => "Straight Flush",
            HandRank::RoyalFlush => "Royal Flush",
        }
    }
}

/// The outcome of comparing a first hand with a second.
#[derive(Debug, Clone, Copy, PartialEq, Eq, Structural)]
pub enum Winner {
    Hand1,
    Hand2,
    Tie,
}

/// The card at position `i` of a fresh deck: suits in standard order, and
/// within a suit the ranks from Two up to Ace.
pub open spec fn fresh_deck_card(i: int) -> Card {
    Card(CardNumber::spec_from_value(i % 13 + 2), CardSuit::spec_from_code(i / 13))
}

/// The 52 cards in the order in which a fresh deck holds them.
pub open spec fn fresh_deck() -> Seq<Card> {
    Seq::new(52, |i: int| fresh_deck_card(i))
}

/// The thirteen ranks from Two up to Ace.
pub open spec fn all_numbers() -> Seq<CardNumber> {
    Seq::new(13, |i: int| CardNumber::spec_from_value(i + 2))
}

impl Board {
    /// The cards that lie on the board, in the order in which they came.
    pub open spec fn spec_cards(&self) -> Seq<Card> {
        let flop = match self.flop {
            Some((a, b, c)) => seq![a, b, c],
            None => Seq::<Card>::empty(),
        };
        let turn = match self.turn {
            Some(c) => seq![c],
            None => Seq::<Card>::empty(),
        };
        let river = match self.river {
            Some(c) => seq![c],
            None => Seq::<Card>::empty(),
        };
        flop + turn + river
    }

    /// The board after its missing streets were taken from the end of `deck`,
    /// and what is then left of the deck. A flop that the deck cannot fill
    /// stays missing, and uses the deck up.
    pub open spec fn spec_fill(&self, deck: Seq<Card>) -> (Board, Seq<Card>) {
        let n = deck.len() as int;
        let (flop, d1) = if self.flop is Some {
            (self.flop, deck)
        } else if n >= 3 {
            (Some((deck[n - 1], deck[n - 2], deck[n - 3])), deck.take(n - 3))
        } else {
            (None, Seq::<Card>::empty())
        };
        let (turn, d2) = if self.turn is Some {
            (self.turn, d1)
        } else if d1.len() >= 1 {
            (Some(d1.last()), d1.drop_last())
        } else {
            (None, d1)
        };
        let (river, d3) = if self.river is Some {
            (self.river, d2)
        } else if d2.len() >= 1 {
            (Some(d2.last()), d2.drop_last())
        } else {
            (None, d2)
        };
        (Board { flop, turn, river }, d3)
    }

    /// Collects the community cards.
    pub fn cards(&self) -> (cards: Vec<Card>)
        ensures
            cards@ == self.spec_cards(),
    {
        let mut cards: Vec<Card> = Vec::new();
        if let Some((c1, c2, c3)) = self.flop {
            cards.push(c1);
            cards.push(c2);
            cards.push(c3);
        }
        if let Some(c) = self.turn {
            cards.push(c);
        }
        if let Some(c) = self.river {
            cards.push(c);
        }
        assert(cards@ =~= self.spec_cards());
        cards
    }

    /// Fills the missing streets with cards popped from the end of `deck`.
    pub fn fill_from_deck(&self, deck: &mut Vec<Card>) -> (filled: Board)
        ensures
            (filled, final(deck)@) == self.spec_fill(old(deck)@),
    {
        let flop = match self.flop {
            Some(f) => Some(f),
            None => {
                match deck.pop() {
                    None => None,
                    Some(a) => match deck.pop() {
                        None => None,
                        Some(b) => match deck.pop() {
                            None => None,
                            Some(c) => Some((a, b, c)),
                        },
                    },
                }
            },
        };
        let turn = match self.turn {
            Some(c) => Some(c),
            None => deck.pop(),
        };
        let river = match self.river {
            Some(c) => Some(c),
            None => deck.pop(),
        };
        let filled = Board { flop, turn, river };
        proof {
            let n = old(deck)@.len() as int;
            if self.flop is None && n >= 3 {
                assert(old(deck)@.drop_last().drop_last().drop_last() =~= old(deck)@.take(n - 3));
            }
            if self.flop is None && n < 3 {
                assert(old(deck)@.len() == 2 ==> old(deck)@.drop_last().drop_last() =~= Seq::<Card>::empty());
                assert(old(deck)@.len() == 1 ==> old(deck)@.drop_last() =~= Seq::<Card>::empty());
                assert(old(deck)@.len() == 0 ==> old(deck)@ =~= Seq::<Card>::empty());
            }
        }
        filled
    }
}

/// The thirteen ranks from Two up to Ace.
pub fn get_all_numbers() -> (numbers: Vec<CardNumber>)
    ensures
        numbers@ == all_numbers(),
{
    let mut numbers: Vec<CardNumber> = Vec::new();
    let mut v: u8 = 2;
    while v <= 14
        invariant
            2 <= v <= 15,
            numbers@.len() == v - 2,
            forall|i: int| 0 <= i < numbers@.len() ==> numbers@[i] == CardNumber::spec_from_value(i + 2),
        decreases 15 - v,
    {
        numbers.push(CardNumber::from_value(v));
        v = v + 1;
    }
    assert(numbers@ =~= all_numbers());
    numbers
}

/// The 52 cards of a fresh deck.
pub fn get_all_cards() -> (cards: Vec<Card>)
    ensures
        cards@ == fresh_deck(),
{
    let mut cards: Vec<Card> = Vec::new();
    let mut s: u8 = 0;
    while s < 4
        invariant
            s <= 4,
            cards@.len() == 13 * s,
            forall|i: int| 0 <= i < cards@.len() ==> cards@[i] == fresh_deck_card(i),
        decreases 4 - s,
    {
        let suit = CardSuit::from_code(s);
        let mut v: u8 = 2;
        while v <= 14
            invariant
                s < 4,
                suit == CardSuit::spec_from_code(s as int),
                2 <= v <= 15,
                cards@.len() == 13 * s + (v - 2),
                forall|i: int| 0 <= i < cards@.len() ==> cards@[i] == fresh_deck_card(i),
            decreases 15 - v,
        {
            cards.push(Card(CardNumber::from_value(v), suit));
            v = v + 1;
        }
        s = s + 1;
    }
    assert(cards@ =~= fresh_deck());
    cards
}

/// A fresh deck holds no card twice.
pub proof fn lemma_fresh_deck_distinct()
    ensures
        fresh_deck().no_duplicates(),
{
    assert forall|i: int, j: int| 0 <= i < 52 && 0 <= j < 52 && i != j implies fresh_deck()[i] != fresh_deck()[j] by {
        let a = fresh_deck_card(i);
        let b = fresh_deck_card(j);
        assert(a.0.spec_value() == i % 13 + 2);
        assert(b.0.spec_value() == j % 13 + 2);
        assert(a.1.spec_code() == i / 13);
        assert(b.1.spec_code() == j / 13);
    }
}

} // verus!
