//! Selections from a run of cards: by rank, by suit, and ordered by rank.

use vstd::prelude::*;
use crate::cards::{Card, CardSuit};

verus! {

/// A condition on one card.
#[derive(Debug, Clone, Copy)]
pub enum CardFilter {
    /// The card has this rank.
    Rank(u8),
    /// The card has another rank than this.
    NotRank(u8),
    /// The card has neither of these ranks.
    NotRanks(u8, u8),
    /// The card has this suit.
    Suit(CardSuit),
}

impl CardFilter {
    pub open spec fn accepts(self, c: Card) -> bool {
        match self {
            CardFilter::Rank(r) => c.rank() == r,
            CardFilter::NotRank(r) => c.rank() != r,
            CardFilter::NotRanks(a, b) => c.rank() != a && c.rank() != b,
            CardFilter::Suit(s) => c.1 == s,
        }
    }

    pub fn test(&self, c: &Card) -> (b: bool)
        ensures
            b == self.accepts(*c),
    {
        match self {
            CardFilter::Rank(r) => c.rank_value() == *r,
            CardFilter::NotRank(r) => c.rank_value() != *r,
            CardFilter::NotRanks(a, b) => c.rank_value() != *a && c.rank_value() != *b,
            CardFilter::Suit(s) => c.1 == *s,
        }
    }
}

/// The cards of `cs` that `f` accepts, in the order in which `cs` holds them.
pub open spec fn select(cs: Seq<Card>, f: CardFilter) -> Seq<Card>
    decreases cs.len(),
{
    if cs.len() == 0 {
        Seq::<Card>::empty()
    } else if f.accepts(cs.last()) {
        select(cs.drop_last(), f).push(cs.last())
    } else {
        select(cs.drop_last(), f)
    }
}

/// How many cards of `cs` have rank `r`.
pub open spec fn count_rank(cs: Seq<Card>, r: u8) -> nat {
    select(cs, CardFilter::Rank(r)).len()
}

/// The cards of `cs` with ranks `r` down to Two, higher ranks first, cards of
/// one rank in the order in which `cs` holds them.
pub open spec fn desc_from(cs: Seq<Card>, r: u8) -> Seq<Card>
    decreases r,
{
    if r < 2 {
        Seq::<Card>::empty()
    } else {
        select(cs, CardFilter::Rank(r)) + desc_from(cs, (r - 1) as u8)
    }
}

/// `cs` ordered by descending rank, cards of equal rank in their old order.
pub open spec fn sorted_desc(cs: Seq<Card>) -> Seq<Card> {
    desc_from(cs, 14)
}

/// Every selected card is accepted by the filter and comes from `cs`.
pub proof fn lemma_select_members(cs: Seq<Card>, f: CardFilter)
    ensures
        forall|i: int| 0 <= i < select(cs, f).len() ==> f.accepts(#[trigger] select(cs, f)[i]) && cs.contains(select(cs, f)[i]),
    decreases cs.len(),
{
    if cs.len() > 0 {
        let init = cs.drop_last();
        lemma_select_members(init, f);
        assert forall|i: int| 0 <= i < select(cs, f).len() implies f.accepts(#[trigger] select(cs, f)[i]) && cs.contains(select(cs, f)[i]) by {
            let c = select(cs, f)[i];
            if i < select(init, f).len() {
                assert(c == select(init, f)[i]);
                assert(init.contains(c));
                let k = choose|k: int| 0 <= k < init.len() && init[k] == c;
                assert(cs[k] == c);
            } else {
                assert(c == cs.last());
                assert(cs[cs.len() - 1] == c);
            }
        }
    }
}

/// A card of `cs` adds one to the cards of ranks Two to `r` where its rank
/// lies in that range.
proof fn lemma_desc_from_step(cs: Seq<Card>, r: u8)
    requires
        cs.len() > 0,
        r <= 14,
    ensures
        desc_from(cs, r).len() == desc_from(cs.drop_last(), r).len() + (if 2 <= cs.last().rank() <= r {
            1int
        } else {
            0
        }),
    decreases r,
{
    if r >= 2 {
        lemma_desc_from_step(cs, (r - 1) as u8);
    }
}

/// Ordering by rank keeps the number of cards.
pub proof fn lemma_sorted_desc_len(cs: Seq<Card>)
    ensures
        sorted_desc(cs).len() == cs.len(),
    decreases cs.len(),
{
    if cs.len() > 0 {
        lemma_sorted_desc_len(cs.drop_last());
        lemma_desc_from_step(cs, 14);
    } else {
        lemma_desc_from_empty(cs, 14);
    }
}

proof fn lemma_desc_from_empty(cs: Seq<Card>, r: u8)
    requires
        cs.len() == 0,
    ensures
        desc_from(cs, r).len() == 0,
    decreases r,
{
    if r >= 2 {
        lemma_desc_from_empty(cs, (r - 1) as u8);
    }
}

pub fn select_cards(cards: &Vec<Card>, f: CardFilter) -> (out: Vec<Card>)
    ensures
        out@ == select(cards@, f),
{
    let mut out: Vec<Card> = Vec::new();
    let mut i: usize = 0;
    while i < cards.len()
        invariant
            i <= cards.len(),
            out@ == select(cards@.take(i as int), f),
        decreases cards.len() - i,
    {
        let c = cards[i];
        proof {
            assert(cards@.take(i + 1).drop_last() =~= cards@.take(i as int));
            assert(cards@.take(i + 1).last() == c);
        }
        if f.test(&c) {
            out.push(c);
        }
        i = i + 1;
    }
    proof {
        assert(cards@.take(cards.len() as int) =~= cards@);
    }
    out
}

pub fn count_cards(cards: &Vec<Card>, f: CardFilter) -> (n: usize)
    ensures
        n == select(cards@, f).len(),
{
    let mut n: usize = 0;
    let mut i: usize = 0;
    while i < cards.len()
        invariant
            i <= cards.len(),
            n == select(cards@.take(i as int), f).len(),
            n <= i,
        decreases cards.len() - i,
    {
        let c = cards[i];
        proof {
            assert(cards@.take(i + 1).drop_last() =~= cards@.take(i as int));
            assert(cards@.take(i + 1).last() == c);
        }
        if f.test(&c) {
            n = n + 1;
        }
        i = i + 1;
    }
    proof {
        assert(cards@.take(cards.len() as int) =~= cards@);
    }
    n
}

pub fn contains_card(cards: &Vec<Card>, c: Card) -> (b: bool)
    ensures
        b == cards@.contains(c),
{
    let mut i: usize = 0;
    while i < cards.len()
        invariant
            i <= cards.len(),
            forall|k: int| 0 <= k < i ==> cards@[k] != c,
        decreases cards.len() - i,
    {
        if cards[i] == c {
            return true;
        }
        i = i + 1;
    }
    false
}

/// Orders cards by descending rank and keeps cards of equal rank in order.
pub fn sort_desc(cards: &Vec<Card>) -> (out: Vec<Card>)
    ensures
        out@ == sorted_desc(cards@),
        out@.len() == cards@.len(),
{
    let mut out: Vec<Card> = Vec::new();
    let mut r: u8 = 14;
    while r >= 2
        invariant
            1 <= r <= 14,
            out@ + desc_from(cards@, r) == sorted_desc(cards@),
        decreases r,
    {
        let mut part = select_cards(cards, CardFilter::Rank(r));
        proof {
            assert((out@ + part@) + desc_from(cards@, (r - 1) as u8) =~= out@ + desc_from(cards@, r));
        }
        out.append(&mut part);
        r = r - 1;
    }
    proof {
        assert(out@ + desc_from(cards@, 1) =~= out@);
        lemma_sorted_desc_len(cards@);
    }
    out
}

} // verus!
