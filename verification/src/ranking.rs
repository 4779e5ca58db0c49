//! The comparison of hands orders them: a hand that is not beaten by a
//! second, which is not beaten by a third, is not beaten by the third.

use vstd::prelude::*;
use crate::cards::{Card, CardNumber, FullHand, HandRank, Winner};
use crate::evaluate::{decide, prefix_compare};
use crate::optimal::{
    group_weight, lemma_five_groups_at_most, lemma_groups_from, lemma_next_weight, lemma_rank_names, lemma_rank_shape,
    lemma_wheel_groups,
};

verus! {

/// Among lists of one length, a list that does not lose against a second,
/// which does not lose against a third, does not lose against the third;
/// and it wins where one of the two wins.
pub proof fn lemma_prefix_compare_weak_chain(a: Seq<CardNumber>, b: Seq<CardNumber>, c: Seq<CardNumber>)
    requires
        a.len() == b.len(),
        b.len() == c.len(),
        prefix_compare(a, b) != Winner::Hand2,
        prefix_compare(b, c) != Winner::Hand2,
    ensures
        prefix_compare(a, c) != Winner::Hand2,
        prefix_compare(a, b) == Winner::Hand1 || prefix_compare(b, c) == Winner::Hand1 ==> prefix_compare(a, c)
            == Winner::Hand1,
    decreases a.len(),
{
    if a.len() > 0 && a[0].spec_value() == b[0].spec_value() && b[0].spec_value() == c[0].spec_value() {
        lemma_prefix_compare_weak_chain(a.drop_first(), b.drop_first(), c.drop_first());
    }
}

/// A hand has as many groups as it has different ranks.
pub proof fn lemma_group_count(h: FullHand)
    ensures
        group_weight(h, 0) > 0,
        group_weight(h, 1) > 0 <==> h.distinct_ranks() > 1,
        group_weight(h, 2) > 0 <==> h.distinct_ranks() > 2,
        group_weight(h, 3) > 0 <==> h.distinct_ranks() > 3,
        group_weight(h, 4) > 0 <==> h.distinct_ranks() > 4,
        group_weight(h, 5) == 0,
{
    reveal(group_weight);
    lemma_five_groups_at_most(h);
    lemma_next_weight(h, 100);
    let a = group_weight(h, 0);
    lemma_next_weight(h, a);
    let b = group_weight(h, 1);
    lemma_next_weight(h, b);
    let c = group_weight(h, 2);
    lemma_next_weight(h, c);
    let d = group_weight(h, 3);
    lemma_next_weight(h, d);
    assert(group_weight(h, 1) == (if a > 0 { h.next_weight(a) } else { 0 }));
    assert(group_weight(h, 2) == (if b > 0 { h.next_weight(b) } else { 0 }));
    assert(group_weight(h, 3) == (if c > 0 { h.next_weight(c) } else { 0 }));
    assert(group_weight(h, 4) == (if d > 0 { h.next_weight(d) } else { 0 }));
}

/// The ranked groups of a hand are as many as its different ranks.
pub proof fn lemma_ranked_groups_len(h: FullHand)
    ensures
        h.ranked_groups().len() == h.distinct_ranks(),
{
    lemma_group_count(h);
    lemma_groups_from(h, 0);
    if group_weight(h, 0) > 0 {
        lemma_groups_from(h, 1);
        if group_weight(h, 1) > 0 {
            lemma_groups_from(h, 2);
            if group_weight(h, 2) > 0 {
                lemma_groups_from(h, 3);
                if group_weight(h, 3) > 0 {
                    lemma_groups_from(h, 4);
                    if group_weight(h, 4) > 0 {
                        lemma_groups_from(h, 5);
                    }
                }
            }
        }
    }
}

/// How many different ranks a hand of the category has: five where no
/// rank comes twice, four with one pair, three with two pairs or three of
/// a kind, two with a full house or four of a kind.
pub open spec fn ranks_in(category: HandRank) -> int {
    match category {
        HandRank::Pair => 4,
        HandRank::TwoPair | HandRank::ThreeOfAKind => 3,
        HandRank::FullHouse | HandRank::FourOfAKind => 2,
        _ => 5,
    }
}

/// Two cards with one rank number and one suit are one card.
proof fn lemma_one_rank(a: Card, b: Card)
    ensures
        a.rank() == b.rank() && a.1 == b.1 ==> a == b,
{
    if a.rank() == b.rank() {
        lemma_rank_names(a, b);
    }
}

/// The category of five different cards says how many different ranks
/// they have.
pub proof fn lemma_category_ranks(h: FullHand)
    requires
        h.cards_seq().no_duplicates(),
    ensures
        h.distinct_ranks() == ranks_in(h.spec_rank()),
{
    reveal(FullHand::spec_rank);
    lemma_rank_shape(h);
    let s = h.cards_seq();
    assert(s[0] == h.0 && s[1] == h.1 && s[2] == h.2 && s[3] == h.3 && s[4] == h.4);
    assert(h.0 != h.1 && h.0 != h.2 && h.0 != h.3 && h.0 != h.4 && h.1 != h.2 && h.1 != h.3 && h.1 != h.4 && h.2
        != h.3 && h.2 != h.4 && h.3 != h.4);
    if h.spec_is_wheel() {
        lemma_wheel_groups(h);
    }
    lemma_one_rank(h.0, h.1);
    lemma_one_rank(h.0, h.2);
    lemma_one_rank(h.0, h.3);
    lemma_one_rank(h.0, h.4);
    lemma_one_rank(h.1, h.2);
    lemma_one_rank(h.1, h.3);
    lemma_one_rank(h.1, h.4);
    lemma_one_rank(h.2, h.3);
    lemma_one_rank(h.2, h.4);
    lemma_one_rank(h.3, h.4);
}

/// Two hands of five different cards each and of one category have
/// equally many ranked groups.
pub proof fn lemma_groups_by_category(a: FullHand, b: FullHand)
    requires
        a.cards_seq().no_duplicates(),
        b.cards_seq().no_duplicates(),
        a.spec_rank().strength() == b.spec_rank().strength(),
    ensures
        a.ranked_groups().len() == b.ranked_groups().len(),
{
    assert(a.spec_rank() == b.spec_rank());
    lemma_category_ranks(a);
    lemma_category_ranks(b);
    lemma_ranked_groups_len(a);
    lemma_ranked_groups_len(b);
}

/// The outcome by category, wheel and groups orders what it compares,
/// where equal categories come with equally many groups.
proof fn lemma_decide_weak_chain(
    s1: int,
    w1: bool,
    g1: Seq<CardNumber>,
    s2: int,
    w2: bool,
    g2: Seq<CardNumber>,
    s3: int,
    w3: bool,
    g3: Seq<CardNumber>,
)
    requires
        s1 == s2 ==> g1.len() == g2.len(),
        s2 == s3 ==> g2.len() == g3.len(),
        decide(s1, w1, g1, s2, w2, g2) != Winner::Hand2,
        decide(s2, w2, g2, s3, w3, g3) != Winner::Hand2,
    ensures
        decide(s1, w1, g1, s3, w3, g3) != Winner::Hand2,
        decide(s1, w1, g1, s2, w2, g2) == Winner::Hand1 || decide(s2, w2, g2, s3, w3, g3) == Winner::Hand1 ==> decide(
            s1,
            w1,
            g1,
            s3,
            w3,
            g3,
        ) == Winner::Hand1,
{
    if s1 == s2 && s2 == s3 {
        let straights = s1 == HandRank::Straight.strength() || s1 == HandRank::StraightFlush.strength();
        if !straights || (w1 == w2 && w2 == w3) {
            lemma_prefix_compare_weak_chain(g1, g2, g3);
        }
    }
}

/// Comparison orders the hands of five different cards: a hand that is not
/// beaten by a second, which is not beaten by a third, is not beaten by the
/// third; and it beats the third where it beats the second or the second
/// beats the third.
pub proof fn lemma_compare_weakly_transitive(a: FullHand, b: FullHand, c: FullHand)
    requires
        a.cards_seq().no_duplicates(),
        b.cards_seq().no_duplicates(),
        c.cards_seq().no_duplicates(),
        a.spec_compare(b) != Winner::Hand2,
        b.spec_compare(c) != Winner::Hand2,
    ensures
        a.spec_compare(c) != Winner::Hand2,
        a.spec_compare(b) == Winner::Hand1 || b.spec_compare(c) == Winner::Hand1 ==> a.spec_compare(c)
            == Winner::Hand1,
{
    if a.spec_rank().strength() == b.spec_rank().strength() {
        lemma_groups_by_category(a, b);
    }
    if b.spec_rank().strength() == c.spec_rank().strength() {
        lemma_groups_by_category(b, c);
    }
    lemma_decide_weak_chain(
        a.spec_rank().strength(),
        a.spec_is_wheel(),
        a.ranked_groups(),
        b.spec_rank().strength(),
        b.spec_is_wheel(),
        b.ranked_groups(),
        c.spec_rank().strength(),
        c.spec_is_wheel(),
        c.ranked_groups(),
    );
}

} // verus!
