//! The best five-card hand that two hole cards and a board allow.

use vstd::prelude::*;
use crate::cards::{Board, Card, CardNumber, CardSuit, FullHand, Hand, Winner};
use crate::select::{count_cards, contains_card, select, select_cards, sort_desc, sorted_desc, count_rank, CardFilter};

verus! {

/// The card of rank number `v` and suit `s`.
pub open spec fn card_of(v: int, s: CardSuit) -> Card {
    Card(CardNumber::spec_from_value(v), s)
}

/// `cs` holds the five cards of suit `s` with ranks `top` down to `top - 4`.
pub open spec fn has_suited_run(cs: Seq<Card>, s: CardSuit, top: u8) -> bool {
    cs.contains(card_of(top as int, s)) && cs.contains(card_of(top - 1, s)) && cs.contains(card_of(top - 2, s))
        && cs.contains(card_of(top - 3, s)) && cs.contains(card_of(top - 4, s))
}

/// `cs` holds Ace, Two, Three, Four and Five of suit `s`.
pub open spec fn has_suited_wheel(cs: Seq<Card>, s: CardSuit) -> bool {
    cs.contains(card_of(14, s)) && cs.contains(card_of(2, s)) && cs.contains(card_of(3, s)) && cs.contains(
        card_of(4, s),
    ) && cs.contains(card_of(5, s))
}

/// The highest rank from `from` down to Six that tops a run of five cards
/// of suit `s` in `cs`, or 0 where there is none.
pub open spec fn suited_run_top(cs: Seq<Card>, s: CardSuit, from: u8) -> u8
    decreases from,
{
    if from < 6 {
        0
    } else if has_suited_run(cs, s, from) {
        from
    } else {
        suited_run_top(cs, s, (from - 1) as u8)
    }
}

/// The five cards of suit `s` from rank `top` downwards.
pub open spec fn suited_run(s: CardSuit, top: u8) -> FullHand {
    FullHand(card_of(top as int, s), card_of(top - 1, s), card_of(top - 2, s), card_of(top - 3, s), card_of(top - 4, s))
}

/// The wheel of suit `s`, the Five first and the Ace last.
pub open spec fn suited_wheel(s: CardSuit) -> FullHand {
    FullHand(card_of(5, s), card_of(4, s), card_of(3, s), card_of(2, s), card_of(14, s))
}

/// `cs` holds each of the ranks `top` down to `top - 4`.
pub open spec fn has_run(cs: Seq<Card>, top: u8) -> bool {
    count_rank(cs, top) > 0 && count_rank(cs, (top - 1) as u8) > 0 && count_rank(cs, (top - 2) as u8) > 0 && count_rank(
        cs,
        (top - 3) as u8,
    ) > 0 && count_rank(cs, (top - 4) as u8) > 0
}

/// `cs` holds an Ace, a Two, a Three, a Four and a Five.
pub open spec fn has_wheel(cs: Seq<Card>) -> bool {
    count_rank(cs, 14) > 0 && count_rank(cs, 2) > 0 && count_rank(cs, 3) > 0 && count_rank(cs, 4) > 0 && count_rank(
        cs,
        5,
    ) > 0
}

/// The highest rank from `from` down to Six that tops a run of five ranks
/// in `cs`, or 0 where there is none.
pub open spec fn run_top(cs: Seq<Card>, from: u8) -> u8
    decreases from,
{
    if from < 6 {
        0
    } else if has_run(cs, from) {
        from
    } else {
        run_top(cs, (from - 1) as u8)
    }
}

/// The first card of rank `r` in `cs`.
pub open spec fn first_of_rank(cs: Seq<Card>, r: u8) -> Card {
    select(cs, CardFilter::Rank(r))[0]
}

/// The cards of `cs` of another rank than `r`, highest first.
pub open spec fn kickers(cs: Seq<Card>, r: u8) -> Seq<Card> {
    select(sorted_desc(cs), CardFilter::NotRank(r))
}

/// The group of rank `r` in `cs` has `size` cards (`exactly`) or at least
/// `size` cards, and `cs` holds at least `others` cards of another rank.
pub open spec fn qualifies(cs: Seq<Card>, r: u8, size: usize, exactly: bool, others: usize) -> bool {
    (if exactly {
        count_rank(cs, r) == size
    } else {
        count_rank(cs, r) >= size
    }) && kickers(cs, r).len() >= others
}

/// The highest rank from `from` down to Two, other than `skip`, whose group
/// qualifies; 0 where there is none.
pub open spec fn top_rank_with(cs: Seq<Card>, size: usize, exactly: bool, others: usize, skip: u8, from: u8) -> u8
    decreases from,
{
    if from < 2 {
        0
    } else if from != skip && qualifies(cs, from, size, exactly, others) {
        from
    } else {
        top_rank_with(cs, size, exactly, others, skip, (from - 1) as u8)
    }
}

/// The suit at position `i` of the standard order.
pub open spec fn suit_at(i: int) -> CardSuit {
    CardSuit::spec_from_code(i)
}

/// Ace to Ten of one suit: of the first suit, from position `i` of the
/// standard order on, of which `cs` holds all five.
pub open spec fn royal_flush_from(cs: Seq<Card>, i: int) -> Option<FullHand>
    decreases 4 - i,
{
    if i >= 4 || i < 0 {
        None
    } else if has_suited_run(cs, suit_at(i), 14) {
        Some(suited_run(suit_at(i), 14))
    } else {
        royal_flush_from(cs, i + 1)
    }
}

pub open spec fn spec_royal_flush(cs: Seq<Card>) -> Option<FullHand> {
    royal_flush_from(cs, 0)
}

/// Five cards in a row of one suit: of the first suit, from position `i` on,
/// in which `cs` holds such a run, the highest run; the wheel counts as the
/// lowest run.
pub open spec fn straight_flush_from(cs: Seq<Card>, i: int) -> Option<FullHand>
    decreases 4 - i,
{
    if i >= 4 || i < 0 {
        None
    } else if suited_run_top(cs, suit_at(i), 14) > 0 {
        Some(suited_run(suit_at(i), suited_run_top(cs, suit_at(i), 14)))
    } else if has_suited_wheel(cs, suit_at(i)) {
        Some(suited_wheel(suit_at(i)))
    } else {
        straight_flush_from(cs, i + 1)
    }
}

pub open spec fn spec_straight_flush(cs: Seq<Card>) -> Option<FullHand> {
    straight_flush_from(cs, 0)
}

/// Four cards of the highest rank of which `cs` holds exactly four, and the
/// highest card of another rank; nothing where `cs` has no such other card.
pub open spec fn spec_four_of_a_kind(cs: Seq<Card>) -> Option<FullHand> {
    let r = top_rank_with(cs, 4, true, 0, 0, 14);
    let four = select(cs, CardFilter::Rank(r));
    let rest = kickers(cs, r);
    if r == 0 || rest.len() == 0 {
        None
    } else {
        Some(FullHand(four[0], four[1], four[2], four[3], rest[0]))
    }
}

/// Three cards of rank `t` and two of the highest other rank that `cs`
/// holds twice, for the highest `t` from `from` down that allows it.
pub open spec fn full_house_from(cs: Seq<Card>, from: u8) -> Option<FullHand>
    decreases from,
{
    if from < 2 {
        None
    } else if count_rank(cs, from) >= 3 && top_rank_with(cs, 2, false, 0, from, 14) > 0 {
        let three = select(cs, CardFilter::Rank(from));
        let two = select(cs, CardFilter::Rank(top_rank_with(cs, 2, false, 0, from, 14)));
        Some(FullHand(three[0], three[1], three[2], two[0], two[1]))
    } else {
        full_house_from(cs, (from - 1) as u8)
    }
}

pub open spec fn spec_full_house(cs: Seq<Card>) -> Option<FullHand> {
    full_house_from(cs, 14)
}

/// The five highest cards of the first suit, from position `i` on, of which
/// `cs` holds five or more.
pub open spec fn flush_from(cs: Seq<Card>, i: int) -> Option<FullHand>
    decreases 4 - i,
{
    if i >= 4 || i < 0 {
        None
    } else if select(cs, CardFilter::Suit(suit_at(i))).len() >= 5 {
        let suited = sorted_desc(select(cs, CardFilter::Suit(suit_at(i))));
        Some(FullHand(suited[0], suited[1], suited[2], suited[3], suited[4]))
    } else {
        flush_from(cs, i + 1)
    }
}

pub open spec fn spec_flush(cs: Seq<Card>) -> Option<FullHand> {
    flush_from(cs, 0)
}

/// The highest run of five ranks in `cs`, of each rank its first card; the
/// wheel, Five first and Ace last, where there is no other run.
pub open spec fn spec_straight(cs: Seq<Card>) -> Option<FullHand> {
    let top = run_top(cs, 14);
    if top > 0 {
        Some(
            FullHand(
                first_of_rank(cs, top),
                first_of_rank(cs, (top - 1) as u8),
                first_of_rank(cs, (top - 2) as u8),
                first_of_rank(cs, (top - 3) as u8),
                first_of_rank(cs, (top - 4) as u8),
            ),
        )
    } else if has_wheel(cs) {
        Some(
            FullHand(
                first_of_rank(cs, 5),
                first_of_rank(cs, 4),
                first_of_rank(cs, 3),
                first_of_rank(cs, 2),
                first_of_rank(cs, 14),
            ),
        )
    } else {
        None
    }
}

/// Three cards of the highest rank of which `cs` holds exactly three, and
/// the two highest cards of other ranks.
pub open spec fn spec_three_of_a_kind(cs: Seq<Card>) -> Option<FullHand> {
    let r = top_rank_with(cs, 3, true, 2, 0, 14);
    let three = select(cs, CardFilter::Rank(r));
    let rest = kickers(cs, r);
    if r == 0 {
        None
    } else {
        Some(FullHand(three[0], three[1], three[2], rest[0], rest[1]))
    }
}

/// Two cards of each of the two highest ranks that `cs` holds twice or more,
/// and the highest card of a third rank; nothing where `cs` has no such card.
pub open spec fn spec_two_pair(cs: Seq<Card>) -> Option<FullHand> {
    let high = top_rank_with(cs, 2, false, 0, 0, 14);
    let low = top_rank_with(cs, 2, false, 0, high, 14);
    let first = select(cs, CardFilter::Rank(high));
    let second = select(cs, CardFilter::Rank(low));
    let rest = select(sorted_desc(cs), CardFilter::NotRanks(high, low));
    if high == 0 || low == 0 || rest.len() == 0 {
        None
    } else {
        Some(FullHand(first[0], first[1], second[0], second[1], rest[0]))
    }
}

/// Two cards of the highest rank that `cs` holds twice or more beside three
/// cards of other ranks, and the three highest of those.
pub open spec fn spec_pair(cs: Seq<Card>) -> Option<FullHand> {
    let r = top_rank_with(cs, 2, false, 3, 0, 14);
    let two = select(cs, CardFilter::Rank(r));
    let rest = kickers(cs, r);
    if r == 0 {
        None
    } else {
        Some(FullHand(two[0], two[1], rest[0], rest[1], rest[2]))
    }
}

/// The five highest cards, where `cs` holds five.
pub open spec fn spec_high_card(cs: Seq<Card>) -> Option<FullHand> {
    let sorted = sorted_desc(cs);
    if cs.len() < 5 {
        None
    } else {
        Some(FullHand(sorted[0], sorted[1], sorted[2], sorted[3], sorted[4]))
    }
}

/// The hand of the strongest category that can be put together from `cs`:
/// the categories are tried from the royal flush down to the high card.
pub open spec fn spec_best(cs: Seq<Card>) -> Option<FullHand> {
    if spec_royal_flush(cs) is Some {
        spec_royal_flush(cs)
    } else if spec_straight_flush(cs) is Some {
        spec_straight_flush(cs)
    } else if spec_four_of_a_kind(cs) is Some {
        spec_four_of_a_kind(cs)
    } else if spec_full_house(cs) is Some {
        spec_full_house(cs)
    } else if spec_flush(cs) is Some {
        spec_flush(cs)
    } else if spec_straight(cs) is Some {
        spec_straight(cs)
    } else if spec_three_of_a_kind(cs) is Some {
        spec_three_of_a_kind(cs)
    } else if spec_two_pair(cs) is Some {
        spec_two_pair(cs)
    } else if spec_pair(cs) is Some {
        spec_pair(cs)
    } else {
        spec_high_card(cs)
    }
}

/// The outcome of comparing the best hands that two pairs of hole cards make
/// with one board; nothing where either has no five cards.
pub open spec fn spec_determine_winner(hand1: Hand, hand2: Hand, board: Board) -> Option<Winner> {
    let first = spec_best(hand1.spec_all_cards(board));
    let second = spec_best(hand2.spec_all_cards(board));
    if first is Some && second is Some {
        Some(first->Some_0.spec_compare(second->Some_0))
    } else {
        None
    }
}

fn make_card(v: u8, s: CardSuit) -> (c: Card)
    ensures
        c == card_of(v as int, s),
{
    Card(CardNumber::from_value(v), s)
}

fn check_suited_run(cards: &Vec<Card>, s: CardSuit, top: u8) -> (b: bool)
    requires
        6 <= top <= 14,
    ensures
        b == has_suited_run(cards@, s, top),
{
    contains_card(cards, make_card(top, s)) && contains_card(cards, make_card(top - 1, s)) && contains_card(
        cards,
        make_card(top - 2, s),
    ) && contains_card(cards, make_card(top - 3, s)) && contains_card(cards, make_card(top - 4, s))
}

fn make_suited_run(s: CardSuit, top: u8) -> (h: FullHand)
    requires
        6 <= top <= 14,
    ensures
        h == suited_run(s, top),
{
    FullHand(make_card(top, s), make_card(top - 1, s), make_card(top - 2, s), make_card(top - 3, s), make_card(top - 4, s))
}

fn find_suited_run_top(cards: &Vec<Card>, s: CardSuit) -> (top: u8)
    ensures
        top == suited_run_top(cards@, s, 14),
        top == 0 || 6 <= top <= 14,
        top != 0 ==> has_suited_run(cards@, s, top),
{
    let mut r: u8 = 14;
    while r >= 6
        invariant
            5 <= r <= 14,
            suited_run_top(cards@, s, r) == suited_run_top(cards@, s, 14),
        decreases r,
    {
        if check_suited_run(cards, s, r) {
            return r;
        }
        r = r - 1;
    }
    0
}

fn has_rank(cards: &Vec<Card>, r: u8) -> (b: bool)
    ensures
        b == (count_rank(cards@, r) > 0),
{
    count_cards(cards, CardFilter::Rank(r)) > 0
}

fn check_run(cards: &Vec<Card>, top: u8) -> (b: bool)
    requires
        6 <= top <= 14,
    ensures
        b == has_run(cards@, top),
{
    has_rank(cards, top) && has_rank(cards, top - 1) && has_rank(cards, top - 2) && has_rank(cards, top - 3)
        && has_rank(cards, top - 4)
}

fn find_run_top(cards: &Vec<Card>) -> (top: u8)
    ensures
        top == run_top(cards@, 14),
        top == 0 || 6 <= top <= 14,
        top != 0 ==> has_run(cards@, top),
{
    let mut r: u8 = 14;
    while r >= 6
        invariant
            5 <= r <= 14,
            run_top(cards@, r) == run_top(cards@, 14),
        decreases r,
    {
        if check_run(cards, r) {
            return r;
        }
        r = r - 1;
    }
    0
}

fn first_card_of_rank(cards: &Vec<Card>, r: u8) -> (c: Card)
    requires
        count_rank(cards@, r) > 0,
    ensures
        c == first_of_rank(cards@, r),
{
    let group = select_cards(cards, CardFilter::Rank(r));
    group[0]
}

/// Finds the highest rank, other than `skip`, whose group qualifies.
fn find_top_rank(cards: &Vec<Card>, sorted: &Vec<Card>, size: usize, exactly: bool, others: usize, skip: u8) -> (r: u8)
    requires
        sorted@ == sorted_desc(cards@),
    ensures
        r == top_rank_with(cards@, size, exactly, others, skip, 14),
        r == 0 || 2 <= r <= 14,
        r != 0 ==> r != skip && qualifies(cards@, r, size, exactly, others),
{
    let mut r: u8 = 14;
    while r >= 2
        invariant
            1 <= r <= 14,
            sorted@ == sorted_desc(cards@),
            top_rank_with(cards@, size, exactly, others, skip, r) == top_rank_with(cards@, size, exactly, others, skip, 14),
        decreases r,
    {
        if r != skip {
            let n = count_cards(cards, CardFilter::Rank(r));
            let fits = if exactly {
                n == size
            } else {
                n >= size
            };
            if fits && count_cards(sorted, CardFilter::NotRank(r)) >= others {
                return r;
            }
        }
        r = r - 1;
    }
    0
}

impl Hand {
    /// The hole cards followed by the cards of the board.
    pub open spec fn spec_all_cards(self, board: Board) -> Seq<Card> {
        seq![self.0, self.1] + board.spec_cards()
    }

    /// The hole cards followed by the cards of the board.
    pub fn all_cards(&self, board: &Board) -> (cards: Vec<Card>)
        ensures
            cards@ == self.spec_all_cards(*board),
    {
        let mut cards: Vec<Card> = Vec::new();
        cards.push(self.0);
        cards.push(self.1);
        let mut rest = board.cards();
        cards.append(&mut rest);
        assert(cards@ =~= self.spec_all_cards(*board));
        cards
    }

    /// The best five-card hand from the hole cards and the board.
    pub fn best(&self, board: &Board) -> (best: Option<FullHand>)
        ensures
            best == spec_best(self.spec_all_cards(*board)),
    {
        let royal = self.try_royal_flush(board);
        if royal.is_some() {
            return royal;
        }
        let straight_flush = self.try_straight_flush(board);
        if straight_flush.is_some() {
            return straight_flush;
        }
        let four = self.try_poker(board);
        if four.is_some() {
            return four;
        }
        let full_house = self.try_full_house(board);
        if full_house.is_some() {
            return full_house;
        }
        let flush = self.try_flush(board);
        if flush.is_some() {
            return flush;
        }
        let straight = self.try_straight(board);
        if straight.is_some() {
            return straight;
        }
        let three = self.try_trio(board);
        if three.is_some() {
            return three;
        }
        let two_pair = self.try_doubles(board);
        if two_pair.is_some() {
            return two_pair;
        }
        let pair = self.try_pair(board);
        if pair.is_some() {
            return pair;
        }
        self.try_high_card(board)
    }

    /// Ace, King, Queen, Jack and Ten of one suit.
    #[verifier::loop_isolation(false)]
    pub fn try_royal_flush(&self, board: &Board) -> (hand: Option<FullHand>)
        ensures
            hand == spec_royal_flush(self.spec_all_cards(*board)),
    {
        let cards = self.all_cards(board);
        let mut i: u8 = 0;
        while i < 4
            invariant
                i <= 4,
                royal_flush_from(cards@, i as int) == spec_royal_flush(cards@),
            decreases 4 - i,
        {
            let suit = CardSuit::from_code(i);
            if check_suited_run(&cards, suit, 14) {
                return Some(make_suited_run(suit, 14));
            }
            i = i + 1;
        }
        None
    }

    /// Five cards in a row of one suit.
    #[verifier::loop_isolation(false)]
    pub fn try_straight_flush(&self, board: &Board) -> (hand: Option<FullHand>)
        ensures
            hand == spec_straight_flush(self.spec_all_cards(*board)),
    {
        let cards = self.all_cards(board);
        let mut i: u8 = 0;
        while i < 4
            invariant
                i <= 4,
                straight_flush_from(cards@, i as int) == spec_straight_flush(cards@),
            decreases 4 - i,
        {
            let suit = CardSuit::from_code(i);
            let top: u8 = find_suited_run_top(&cards, suit);
            if top > 0 {
                return Some(make_suited_run(suit, top));
            }
            if contains_card(&cards, make_card(14, suit)) && contains_card(&cards, make_card(2, suit)) && contains_card(
                &cards,
                make_card(3, suit),
            ) && contains_card(&cards, make_card(4, suit)) && contains_card(&cards, make_card(5, suit)) {
                return Some(
                    FullHand(
                        make_card(5, suit),
                        make_card(4, suit),
                        make_card(3, suit),
                        make_card(2, suit),
                        make_card(14, suit),
                    ),
                );
            }
            i = i + 1;
        }
        None
    }

    /// Four cards of one rank and the highest other card.
    pub fn try_poker(&self, board: &Board) -> (hand: Option<FullHand>)
        ensures
            hand == spec_four_of_a_kind(self.spec_all_cards(*board)),
    {
        let cards = self.all_cards(board);
        let sorted = sort_desc(&cards);
        let r: u8 = find_top_rank(&cards, &sorted, 4, true, 0, 0);
        if r == 0 {
            return None;
        }
        let four = select_cards(&cards, CardFilter::Rank(r));
        let rest = select_cards(&sorted, CardFilter::NotRank(r));
        if rest.len() == 0 {
            return None;
        }
        Some(FullHand(four[0], four[1], four[2], four[3], rest[0]))
    }

    /// Three cards of one rank and two of another.
    #[verifier::loop_isolation(false)]
    pub fn try_full_house(&self, board: &Board) -> (hand: Option<FullHand>)
        ensures
            hand == spec_full_house(self.spec_all_cards(*board)),
    {
        let cards = self.all_cards(board);
        let sorted = sort_desc(&cards);
        let mut t: u8 = 14;
        while t >= 2
            invariant
                1 <= t <= 14,
                sorted@ == sorted_desc(cards@),
                full_house_from(cards@, t) == spec_full_house(cards@),
            decreases t,
        {
            let three = select_cards(&cards, CardFilter::Rank(t));
            if three.len() >= 3 {
                let p: u8 = find_top_rank(&cards, &sorted, 2, false, 0, t);
                if p > 0 {
                    let two = select_cards(&cards, CardFilter::Rank(p));
                    return Some(FullHand(three[0], three[1], three[2], two[0], two[1]));
                }
            }
            t = t - 1;
        }
        None
    }

    /// The five highest cards of a suit of which there are five.
    #[verifier::loop_isolation(false)]
    pub fn try_flush(&self, board: &Board) -> (hand: Option<FullHand>)
        ensures
            hand == spec_flush(self.spec_all_cards(*board)),
    {
        let cards = self.all_cards(board);
        let mut i: u8 = 0;
        while i < 4
            invariant
                i <= 4,
                flush_from(cards@, i as int) == spec_flush(cards@),
            decreases 4 - i,
        {
            let suited = select_cards(&cards, CardFilter::Suit(CardSuit::from_code(i)));
            if suited.len() >= 5 {
                let high = sort_desc(&suited);
                return Some(FullHand(high[0], high[1], high[2], high[3], high[4]));
            }
            i = i + 1;
        }
        None
    }

    /// Five ranks in a row.
    pub fn try_straight(&self, board: &Board) -> (hand: Option<FullHand>)
        ensures
            hand == spec_straight(self.spec_all_cards(*board)),
    {
        let cards = self.all_cards(board);
        let top: u8 = find_run_top(&cards);
        if top > 0 {
            return Some(
                FullHand(
                    first_card_of_rank(&cards, top),
                    first_card_of_rank(&cards, top - 1),
                    first_card_of_rank(&cards, top - 2),
                    first_card_of_rank(&cards, top - 3),
                    first_card_of_rank(&cards, top - 4),
                ),
            );
        }
        if has_rank(&cards, 14) && has_rank(&cards, 2) && has_rank(&cards, 3) && has_rank(&cards, 4) && has_rank(
            &cards,
            5,
        ) {
            return Some(
                FullHand(
                    first_card_of_rank(&cards, 5),
                    first_card_of_rank(&cards, 4),
                    first_card_of_rank(&cards, 3),
                    first_card_of_rank(&cards, 2),
                    first_card_of_rank(&cards, 14),
                ),
            );
        }
        None
    }

    /// Three cards of one rank and the two highest other cards.
    pub fn try_trio(&self, board: &Board) -> (hand: Option<FullHand>)
        ensures
            hand == spec_three_of_a_kind(self.spec_all_cards(*board)),
    {
        let cards = self.all_cards(board);
        let sorted = sort_desc(&cards);
        let r: u8 = find_top_rank(&cards, &sorted, 3, true, 2, 0);
        if r == 0 {
            return None;
        }
        let three = select_cards(&cards, CardFilter::Rank(r));
        let rest = select_cards(&sorted, CardFilter::NotRank(r));
        Some(FullHand(three[0], three[1], three[2], rest[0], rest[1]))
    }

    /// Two pairs and the highest other card.
    pub fn try_doubles(&self, board: &Board) -> (hand: Option<FullHand>)
        ensures
            hand == spec_two_pair(self.spec_all_cards(*board)),
    {
        let cards = self.all_cards(board);
        let sorted = sort_desc(&cards);
        let high: u8 = find_top_rank(&cards, &sorted, 2, false, 0, 0);
        if high == 0 {
            return None;
        }
        let low: u8 = find_top_rank(&cards, &sorted, 2, false, 0, high);
        if low == 0 {
            return None;
        }
        let first = select_cards(&cards, CardFilter::Rank(high));
        let second = select_cards(&cards, CardFilter::Rank(low));
        let rest = select_cards(&sorted, CardFilter::NotRanks(high, low));
        if rest.len() == 0 {
            return None;
        }
        Some(FullHand(first[0], first[1], second[0], second[1], rest[0]))
    }

    /// A pair and the three highest other cards.
    pub fn try_pair(&self, board: &Board) -> (hand: Option<FullHand>)
        ensures
            hand == spec_pair(self.spec_all_cards(*board)),
    {
        let cards = self.all_cards(board);
        let sorted = sort_desc(&cards);
        let r: u8 = find_top_rank(&cards, &sorted, 2, false, 3, 0);
        if r == 0 {
            return None;
        }
        let two = select_cards(&cards, CardFilter::Rank(r));
        let rest = select_cards(&sorted, CardFilter::NotRank(r));
        Some(FullHand(two[0], two[1], rest[0], rest[1], rest[2]))
    }

    /// The five highest cards.
    pub fn try_high_card(&self, board: &Board) -> (hand: Option<FullHand>)
        ensures
            hand == spec_high_card(self.spec_all_cards(*board)),
    {
        let cards = self.all_cards(board);
        if cards.len() < 5 {
            return None;
        }
        let sorted = sort_desc(&cards);
        Some(FullHand(sorted[0], sorted[1], sorted[2], sorted[3], sorted[4]))
    }
}

/// Compares the best hands of two players on one board.
pub fn determine_winner(hand1: &Hand, hand2: &Hand, board: &Board) -> (winner: Option<Winner>)
    ensures
        winner == spec_determine_winner(*hand1, *hand2, *board),
{
    let full1 = match hand1.best(board) {
        Some(h) => h,
        None => {
            return None;
        },
    };
    let full2 = match hand2.best(board) {
        Some(h) => h,
        None => {
            return None;
        },
    };
    Some(full1.compare(&full2))
}

} // verus!
