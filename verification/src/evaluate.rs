//! The value of a five-card hand: its category, its ranked groups, and the
//! comparison of two hands.

use vstd::prelude::*;
use crate::cards::{Card, CardNumber, FullHand, HandRank, Winner};
use crate::select::sort_desc;
use crate::select::sorted_desc;

verus! {

/// The outcome of comparing two lists of ranks entry by entry, as far as
/// both lists reach: the first entry that differs decides.
pub open spec fn prefix_compare(a: Seq<CardNumber>, b: Seq<CardNumber>) -> Winner
    decreases a.len(),
{
    if a.len() == 0 || b.len() == 0 {
        Winner::Tie
    } else if a[0].spec_value() > b[0].spec_value() {
        Winner::Hand1
    } else if a[0].spec_value() < b[0].spec_value() {
        Winner::Hand2
    } else {
        prefix_compare(a.drop_first(), b.drop_first())
    }
}

/// The outcome for two hands of which the category's strength, whether the
/// hand is the wheel, and the ranked groups are given: the stronger category
/// wins; among straights and among straight flushes the wheel loses to every
/// other; otherwise the ranked groups decide, entry by entry.
pub open spec fn decide(
    strength1: int,
    wheel1: bool,
    groups1: Seq<CardNumber>,
    strength2: int,
    wheel2: bool,
    groups2: Seq<CardNumber>,
) -> Winner {
    if strength1 > strength2 {
        Winner::Hand1
    } else if strength1 < strength2 {
        Winner::Hand2
    } else if (strength1 == HandRank::Straight.strength() || strength1 == HandRank::StraightFlush.strength())
        && wheel1 != wheel2 {
        if wheel1 {
            Winner::Hand2
        } else {
            Winner::Hand1
        }
    } else {
        prefix_compare(groups1, groups2)
    }
}

impl FullHand {
    pub open spec fn cards_seq(self) -> Seq<Card> {
        seq![self.0, self.1, self.2, self.3, self.4]
    }

    /// How many of the five cards have rank `r`.
    pub open spec fn count_of(self, r: int) -> int {
        (if self.0.rank() == r { 1int } else { 0 })
            + (if self.1.rank() == r { 1int } else { 0 })
            + (if self.2.rank() == r { 1int } else { 0 })
            + (if self.3.rank() == r { 1int } else { 0 })
            + (if self.4.rank() == r { 1int } else { 0 })
    }

    /// All five cards have one suit.
    pub open spec fn is_flush(self) -> bool {
        self.1.1 == self.0.1 && self.2.1 == self.0.1 && self.3.1 == self.0.1 && self.4.1 == self.0.1
    }

    /// The highest rank among the five cards.
    pub open spec fn top_rank(self) -> int {
        vstd::math::max(
            vstd::math::max(vstd::math::max(self.0.rank(), self.1.rank()), vstd::math::max(self.2.rank(), self.3.rank())),
            self.4.rank(),
        )
    }

    /// The lowest rank among the five cards.
    pub open spec fn low_rank(self) -> int {
        vstd::math::min(
            vstd::math::min(vstd::math::min(self.0.rank(), self.1.rank()), vstd::math::min(self.2.rank(), self.3.rank())),
            self.4.rank(),
        )
    }

    /// How many different ranks the five cards have.
    pub open spec fn distinct_ranks(self) -> int {
        let r0 = self.0.rank();
        let r1 = self.1.rank();
        let r2 = self.2.rank();
        let r3 = self.3.rank();
        let r4 = self.4.rank();
        1 + (if r1 != r0 { 1int } else { 0 })
            + (if r2 != r0 && r2 != r1 { 1int } else { 0 })
            + (if r3 != r0 && r3 != r1 && r3 != r2 { 1int } else { 0 })
            + (if r4 != r0 && r4 != r1 && r4 != r2 && r4 != r3 { 1int } else { 0 })
    }

    /// The size of the largest group of cards of one rank.
    pub open spec fn top_count(self) -> int {
        vstd::math::max(
            vstd::math::max(
                vstd::math::max(self.count_of(self.0.rank()), self.count_of(self.1.rank())),
                vstd::math::max(self.count_of(self.2.rank()), self.count_of(self.3.rank())),
            ),
            self.count_of(self.4.rank()),
        )
    }

    /// The hand holds an Ace, a Two, a Three, a Four and a Five.
    pub open spec fn spec_is_wheel(self) -> bool {
        self.count_of(14) >= 1 && self.count_of(2) >= 1 && self.count_of(3) >= 1 && self.count_of(4) >= 1
            && self.count_of(5) >= 1
    }

    /// Five ranks in a row.
    pub open spec fn is_run(self) -> bool {
        self.distinct_ranks() == 5 && self.top_rank() - self.low_rank() == 4
    }

    /// Five ranks in a row, or the wheel, in which the Ace counts low.
    pub open spec fn is_straight(self) -> bool {
        self.is_run() || self.spec_is_wheel()
    }

    /// The category of the hand.
    #[verifier::opaque]
    pub open spec fn spec_rank(self) -> HandRank {
        let flush = self.is_flush();
        let straight = self.is_straight();
        let groups = self.distinct_ranks();
        let most = self.top_count();
        if flush && straight && self.is_run() && self.top_rank() == 14 {
            HandRank::RoyalFlush
        } else if flush && straight {
            HandRank::StraightFlush
        } else if groups == 2 && most == 4 {
            HandRank::FourOfAKind
        } else if groups == 2 && most == 3 {
            HandRank::FullHouse
        } else if flush {
            HandRank::Flush
        } else if straight {
            HandRank::Straight
        } else if groups == 3 && most == 3 {
            HandRank::ThreeOfAKind
        } else if groups == 3 && most == 2 {
            HandRank::TwoPair
        } else if groups == 4 {
            HandRank::Pair
        } else {
            HandRank::HighCard
        }
    }

    /// The weight by which the group of rank `r` is ordered: groups of more
    /// cards come first, and among groups of one size the higher rank.
    pub open spec fn weight(self, r: int) -> int {
        self.count_of(r) * 16 + r
    }

    /// The largest weight of a group of the hand that is below `bound`, or 0
    /// where there is none.
    pub open spec fn next_weight(self, bound: int) -> int {
        let pick = |c: Card| if self.weight(c.rank()) < bound { self.weight(c.rank()) } else { 0 };
        vstd::math::max(
            vstd::math::max(vstd::math::max(pick(self.0), pick(self.1)), vstd::math::max(pick(self.2), pick(self.3))),
            pick(self.4),
        )
    }

    /// The ranks of the groups whose weight is below `bound`, heaviest first.
    pub open spec fn groups_below(self, bound: int) -> Seq<CardNumber>
        decreases bound,
    {
        let w = self.next_weight(bound);
        if 0 < w < bound {
            seq![CardNumber::spec_from_value(w % 16)] + self.groups_below(w)
        } else {
            Seq::<CardNumber>::empty()
        }
    }

    /// The sizes of the groups whose weight is below `bound`, heaviest first.
    pub open spec fn counts_below(self, bound: int) -> Seq<usize>
        decreases bound,
    {
        let w = self.next_weight(bound);
        if 0 < w < bound {
            seq![(w / 16) as usize] + self.counts_below(w)
        } else {
            Seq::<usize>::empty()
        }
    }

    /// Each rank that the hand holds, once: ranks held more often first, and
    /// among ranks held equally often the higher first.
    pub open spec fn ranked_groups(self) -> Seq<CardNumber> {
        self.groups_below(100)
    }

    /// How often the hand holds each of its ranks, in the order of
    /// `ranked_groups`: a descending list.
    pub open spec fn group_counts(self) -> Seq<usize> {
        self.counts_below(100)
    }

    /// The outcome of comparing this hand with `other`: the stronger
    /// category wins; within straights the wheel loses to every other
    /// straight; otherwise the ranked groups decide, entry by entry.
    pub open spec fn spec_compare(self, other: FullHand) -> Winner {
        decide(
            self.spec_rank().strength(),
            self.spec_is_wheel(),
            self.ranked_groups(),
            other.spec_rank().strength(),
            other.spec_is_wheel(),
            other.ranked_groups(),
        )
    }

    /// The five cards, highest rank first.
    pub fn cards(&self) -> (cards: Vec<Card>)
        ensures
            cards@ == sorted_desc(self.cards_seq()),
    {
        let mut all: Vec<Card> = Vec::new();
        all.push(self.0);
        all.push(self.1);
        all.push(self.2);
        all.push(self.3);
        all.push(self.4);
        assert(all@ =~= self.cards_seq());
        sort_desc(&all)
    }

    /// Counts the cards of rank `r`.
    pub fn count_value(&self, r: u8) -> (n: u8)
        ensures
            n == self.count_of(r as int),
            n <= 5,
    {
        let mut n: u8 = 0;
        if self.0.rank_value() == r {
            n = n + 1;
        }
        if self.1.rank_value() == r {
            n = n + 1;
        }
        if self.2.rank_value() == r {
            n = n + 1;
        }
        if self.3.rank_value() == r {
            n = n + 1;
        }
        if self.4.rank_value() == r {
            n = n + 1;
        }
        n
    }

    /// Whether the hand is the wheel: Ace, Two, Three, Four, Five.
    pub fn is_wheel(&self) -> (b: bool)
        ensures
            b == self.spec_is_wheel(),
    {
        self.count_value(14) >= 1 && self.count_value(2) >= 1 && self.count_value(3) >= 1 && self.count_value(4)
            >= 1 && self.count_value(5) >= 1
    }

    /// Whether all five cards have one suit.
    pub fn flush(&self) -> (b: bool)
        ensures
            b == self.is_flush(),
    {
        self.1.1 == self.0.1 && self.2.1 == self.0.1 && self.3.1 == self.0.1 && self.4.1 == self.0.1
    }

    /// The highest rank among the five cards.
    pub fn high_value(&self) -> (r: u8)
        ensures
            r == self.top_rank(),
            2 <= r <= 14,
    {
        max_u8(
            max_u8(max_u8(self.0.rank_value(), self.1.rank_value()), max_u8(self.2.rank_value(), self.3.rank_value())),
            self.4.rank_value(),
        )
    }

    /// The lowest rank among the five cards.
    pub fn low_value(&self) -> (r: u8)
        ensures
            r == self.low_rank(),
            2 <= r <= 14,
    {
        min_u8(
            min_u8(min_u8(self.0.rank_value(), self.1.rank_value()), min_u8(self.2.rank_value(), self.3.rank_value())),
            self.4.rank_value(),
        )
    }

    /// The number of different ranks in the hand.
    pub fn group_count(&self) -> (n: u8)
        ensures
            n == self.distinct_ranks(),
            1 <= n <= 5,
    {
        let r0: u8 = self.0.rank_value();
        let r1: u8 = self.1.rank_value();
        let r2: u8 = self.2.rank_value();
        let r3: u8 = self.3.rank_value();
        let r4: u8 = self.4.rank_value();
        let mut groups: u8 = 1;
        if r1 != r0 {
            groups = groups + 1;
        }
        if r2 != r0 && r2 != r1 {
            groups = groups + 1;
        }
        if r3 != r0 && r3 != r1 && r3 != r2 {
            groups = groups + 1;
        }
        if r4 != r0 && r4 != r1 && r4 != r2 && r4 != r3 {
            groups = groups + 1;
        }
        groups
    }

    /// The size of the largest group of cards of one rank.
    pub fn largest_group(&self) -> (n: u8)
        ensures
            n == self.top_count(),
    {
        let c0: u8 = self.count_value(self.0.rank_value());
        let c1: u8 = self.count_value(self.1.rank_value());
        let c2: u8 = self.count_value(self.2.rank_value());
        let c3: u8 = self.count_value(self.3.rank_value());
        let c4: u8 = self.count_value(self.4.rank_value());
        max_u8(max_u8(max_u8(c0, c1), max_u8(c2, c3)), c4)
    }

    /// The category of the hand.
    pub fn rank(&self) -> (rank: HandRank)
        ensures
            rank == self.spec_rank(),
    {
        proof {
            reveal(FullHand::spec_rank);
        }
        let flush = self.flush();
        let top: u8 = self.high_value();
        let low: u8 = self.low_value();
        let groups: u8 = self.group_count();
        let most: u8 = self.largest_group();
        let run = groups == 5 && top - low == 4;
        let straight = run || self.is_wheel();
        if flush && straight && run && top == 14 {
            HandRank::RoyalFlush
        } else if flush && straight {
            HandRank::StraightFlush
        } else if groups == 2 && most == 4 {
            HandRank::FourOfAKind
        } else if groups == 2 && most == 3 {
            HandRank::FullHouse
        } else if flush {
            HandRank::Flush
        } else if straight {
            HandRank::Straight
        } else if groups == 3 && most == 3 {
            HandRank::ThreeOfAKind
        } else if groups == 3 && most == 2 {
            HandRank::TwoPair
        } else if groups == 4 {
            HandRank::Pair
        } else {
            HandRank::HighCard
        }
    }

    /// The weight of a card's group where it is below `bound`, else 0.
    fn weight_below(&self, c: &Card, bound: u8) -> (w: u8)
        ensures
            w == (if self.weight(c.rank()) < bound { self.weight(c.rank()) } else { 0 }),
            w <= 94,
    {
        let r: u8 = c.rank_value();
        let w: u8 = self.count_value(r) * 16 + r;
        if w < bound {
            w
        } else {
            0
        }
    }

    /// The largest group weight below `bound`, or 0.
    pub fn next_weight_below(&self, bound: u8) -> (w: u8)
        ensures
            w == self.next_weight(bound as int),
            w == 0 || w < bound,
            w <= 94,
    {
        max_u8(
            max_u8(
                max_u8(self.weight_below(&self.0, bound), self.weight_below(&self.1, bound)),
                max_u8(self.weight_below(&self.2, bound), self.weight_below(&self.3, bound)),
            ),
            self.weight_below(&self.4, bound),
        )
    }

    /// How often the hand holds each of its ranks, most often first.
    pub fn get_counts(&self) -> (counts: Vec<usize>)
        ensures
            counts@ == self.group_counts(),
    {
        let mut counts: Vec<usize> = Vec::new();
        let mut bound: u8 = 100;
        loop
            invariant
                bound <= 100,
                counts@ + self.counts_below(bound as int) == self.group_counts(),
            decreases bound,
        {
            let w: u8 = self.next_weight_below(bound);
            if w == 0 {
                proof {
                    assert(counts@ + self.counts_below(bound as int) =~= counts@);
                }
                return counts;
            }
            proof {
                assert(counts@.push((w / 16) as usize) + self.counts_below(w as int) =~= counts@
                    + self.counts_below(bound as int));
            }
            let count: usize = (w / 16) as usize;
            counts.push(count);
            bound = w;
        }
    }

    /// The ranks of the hand, each once, ordered by how often the hand
    /// holds them and then by rank, both descending.
    pub fn get_ranked_groups(&self) -> (groups: Vec<CardNumber>)
        ensures
            groups@ == self.ranked_groups(),
    {
        let mut groups: Vec<CardNumber> = Vec::new();
        let mut bound: u8 = 100;
        loop
            invariant
                bound <= 100,
                groups@ + self.groups_below(bound as int) == self.ranked_groups(),
            decreases bound,
        {
            let w: u8 = self.next_weight_below(bound);
            if w == 0 {
                proof {
                    assert(groups@ + self.groups_below(bound as int) =~= groups@);
                }
                return groups;
            }
            proof {
                assert(groups@.push(CardNumber::spec_from_value((w % 16) as int)) + self.groups_below(w as int)
                    =~= groups@ + self.groups_below(bound as int));
            }
            groups.push(CardNumber::from_value(w % 16));
            bound = w;
        }
    }

    /// Compares this hand with `other`.
    pub fn compare(&self, other: &FullHand) -> (winner: Winner)
        ensures
            winner == self.spec_compare(*other),
    {
        let mine = self.rank();
        let theirs = other.rank();
        if mine.ordinal() > theirs.ordinal() {
            return Winner::Hand1;
        }
        if mine.ordinal() < theirs.ordinal() {
            return Winner::Hand2;
        }
        if (mine == HandRank::Straight || mine == HandRank::StraightFlush) && self.is_wheel() != other.is_wheel() {
            return if self.is_wheel() {
                Winner::Hand2
            } else {
                Winner::Hand1
            };
        }
        let a = self.get_ranked_groups();
        let b = other.get_ranked_groups();
        let mut i: usize = 0;
        proof {
            assert(a@.skip(0) =~= a@);
            assert(b@.skip(0) =~= b@);
        }
        while i < a.len() && i < b.len()
            invariant
                i <= a.len(),
                i <= b.len(),
                self.spec_compare(*other) == prefix_compare(a@, b@),
                prefix_compare(a@.skip(i as int), b@.skip(i as int)) == prefix_compare(a@, b@),
            decreases a.len() - i,
        {
            let x: u8 = a[i].value();
            let y: u8 = b[i].value();
            proof {
                assert(a@.skip(i as int).drop_first() =~= a@.skip(i + 1));
                assert(b@.skip(i as int).drop_first() =~= b@.skip(i + 1));
                assert(a@.skip(i as int)[0] == a@[i as int]);
                assert(b@.skip(i as int)[0] == b@[i as int]);
            }
            if x > y {
                return Winner::Hand1;
            }
            if x < y {
                return Winner::Hand2;
            }
            i = i + 1;
        }
        Winner::Tie
    }
}

/// Swapping the two lists swaps the winner.
pub proof fn lemma_prefix_compare_swap(a: Seq<CardNumber>, b: Seq<CardNumber>)
    ensures
        prefix_compare(a, b) == Winner::Hand1 <==> prefix_compare(b, a) == Winner::Hand2,
        prefix_compare(a, b) == Winner::Hand2 <==> prefix_compare(b, a) == Winner::Hand1,
        prefix_compare(a, b) == Winner::Tie <==> prefix_compare(b, a) == Winner::Tie,
    decreases a.len(),
{
    if a.len() > 0 && b.len() > 0 && a[0].spec_value() == b[0].spec_value() {
        lemma_prefix_compare_swap(a.drop_first(), b.drop_first());
    }
}

/// A list that wins against a second, which wins against a third, wins
/// against the third.
pub proof fn lemma_prefix_compare_chain(a: Seq<CardNumber>, b: Seq<CardNumber>, c: Seq<CardNumber>)
    requires
        prefix_compare(a, b) == Winner::Hand1,
        prefix_compare(b, c) == Winner::Hand1,
    ensures
        prefix_compare(a, c) == Winner::Hand1,
    decreases a.len(),
{
    if a[0].spec_value() == b[0].spec_value() && b[0].spec_value() == c[0].spec_value() {
        lemma_prefix_compare_chain(a.drop_first(), b.drop_first(), c.drop_first());
    }
}

proof fn lemma_decide_swap(s1: int, w1: bool, g1: Seq<CardNumber>, s2: int, w2: bool, g2: Seq<CardNumber>)
    ensures
        decide(s1, w1, g1, s2, w2, g2) == Winner::Hand1 <==> decide(s2, w2, g2, s1, w1, g1) == Winner::Hand2,
        decide(s1, w1, g1, s2, w2, g2) == Winner::Hand2 <==> decide(s2, w2, g2, s1, w1, g1) == Winner::Hand1,
        decide(s1, w1, g1, s2, w2, g2) == Winner::Tie <==> decide(s2, w2, g2, s1, w1, g1) == Winner::Tie,
{
    lemma_prefix_compare_swap(g1, g2);
}

proof fn lemma_decide_chain(
    s1: int,
    w1: bool,
    g1: Seq<CardNumber>,
    s2: int,
    w2: bool,
    g2: Seq<CardNumber>,
    s3: int,
    w3: bool,
    g3: Seq<CardNumber>,
)
    requires
        decide(s1, w1, g1, s2, w2, g2) == Winner::Hand1,
        decide(s2, w2, g2, s3, w3, g3) == Winner::Hand1,
    ensures
        decide(s1, w1, g1, s3, w3, g3) == Winner::Hand1,
{
    if prefix_compare(g1, g2) == Winner::Hand1 && prefix_compare(g2, g3) == Winner::Hand1 {
        lemma_prefix_compare_chain(g1, g2, g3);
    }
}

/// Comparison is antisymmetric: a hand wins against another exactly when
/// the other loses against it, and a tie is a tie from both sides.
pub proof fn lemma_compare_antisymmetric(a: FullHand, b: FullHand)
    ensures
        a.spec_compare(b) == Winner::Hand1 <==> b.spec_compare(a) == Winner::Hand2,
        a.spec_compare(b) == Winner::Hand2 <==> b.spec_compare(a) == Winner::Hand1,
        a.spec_compare(b) == Winner::Tie <==> b.spec_compare(a) == Winner::Tie,
{
    lemma_decide_swap(
        a.spec_rank().strength(),
        a.spec_is_wheel(),
        a.ranked_groups(),
        b.spec_rank().strength(),
        b.spec_is_wheel(),
        b.ranked_groups(),
    );
}

/// Comparison is transitive: a hand that wins against a second, which wins
/// against a third, wins against the third.
pub proof fn lemma_compare_transitive(a: FullHand, b: FullHand, c: FullHand)
    requires
        a.spec_compare(b) == Winner::Hand1,
        b.spec_compare(c) == Winner::Hand1,
    ensures
        a.spec_compare(c) == Winner::Hand1,
{
    lemma_decide_chain(
        a.spec_rank().strength(),
        a.spec_is_wheel(),
        a.ranked_groups(),
        b.spec_rank().strength(),
        b.spec_is_wheel(),
        b.ranked_groups(),
        c.spec_rank().strength(),
        c.spec_is_wheel(),
        c.ranked_groups(),
    );
}

/// A hand ties with itself.
pub proof fn lemma_compare_reflexive(a: FullHand)
    ensures
        a.spec_compare(a) == Winner::Tie,
{
    lemma_prefix_compare_swap(a.ranked_groups(), a.ranked_groups());
}

/// The wheel is the lowest straight: it loses against the six-high straight.
pub proof fn lemma_wheel_below_six_high(wheel: FullHand, six_high: FullHand)
    requires
        wheel.spec_rank() == HandRank::Straight,
        wheel.spec_is_wheel(),
        six_high.spec_rank() == HandRank::Straight,
        six_high.top_rank() == 6,
    ensures
        wheel.spec_compare(six_high) == Winner::Hand2,
        six_high.spec_compare(wheel) == Winner::Hand1,
{
    assert(six_high.count_of(14) == 0);
}

fn max_u8(a: u8, b: u8) -> (m: u8)
    ensures
        m == vstd::math::max(a as int, b as int),
{
    if a >= b {
        a
    } else {
        b
    }
}

fn min_u8(a: u8, b: u8) -> (m: u8)
    ensures
        m == vstd::math::min(a as int, b as int),
{
    if a <= b {
        a
    } else {
        b
    }
}

} // verus!
