//! The best hand is best: no five of the cards it was chosen from make a
//! stronger hand.

use vstd::prelude::*;
use crate::best::{card_of, has_suited_run, has_suited_wheel, royal_flush_from, spec_best, spec_royal_flush, spec_straight_flush, straight_flush_from, suited_run, suited_run_top, suited_wheel, flush_from, spec_flush, suit_at, first_of_rank, has_run, has_wheel, run_top, spec_straight, full_house_from, spec_full_house, kickers, qualifies, spec_four_of_a_kind, spec_high_card, spec_pair, spec_three_of_a_kind, spec_two_pair, top_rank_with};
use crate::cards::{Board, Card, CardNumber, CardSuit, FullHand, Hand, HandRank, Winner};
use crate::evaluate::prefix_compare;
use crate::select::{count_rank, desc_from, lemma_select_members, select, sorted_desc, CardFilter};

verus! {

/// The five cards of `h` are five different cards of `cs`.
pub open spec fn drawn_from(h: FullHand, cs: Seq<Card>) -> bool {
    &&& cs.contains(h.0)
    &&& cs.contains(h.1)
    &&& cs.contains(h.2)
    &&& cs.contains(h.3)
    &&& cs.contains(h.4)
    &&& h.0 != h.1
    &&& h.0 != h.2
    &&& h.0 != h.3
    &&& h.0 != h.4
    &&& h.1 != h.2
    &&& h.1 != h.3
    &&& h.1 != h.4
    &&& h.2 != h.3
    &&& h.2 != h.4
    &&& h.3 != h.4
}

/// A run of cards that holds different cards is at least as long as they
/// are many.
pub proof fn lemma_room_for(s: Seq<Card>, items: Seq<Card>)
    requires
        items.no_duplicates(),
        forall|i: int| 0 <= i < items.len() ==> s.contains(#[trigger] items[i]),
    ensures
        s.len() >= items.len(),
{
    items.unique_seq_to_set();
    s.lemma_cardinality_of_set();
    assert(items.to_set().subset_of(s.to_set())) by {
        assert forall|c: Card| items.to_set().contains(c) implies s.to_set().contains(c) by {
            let i = choose|i: int| 0 <= i < items.len() && items[i] == c;
            assert(s.contains(items[i]));
        }
    }
    vstd::set_lib::lemma_len_subset(items.to_set(), s.to_set());
}

/// A card of `cs` that the filter accepts is among the selected.
pub proof fn lemma_select_holds(cs: Seq<Card>, f: CardFilter, c: Card)
    requires
        cs.contains(c),
        f.accepts(c),
    ensures
        select(cs, f).contains(c),
    decreases cs.len(),
{
    if cs.len() > 0 {
        let init = cs.drop_last();
        if cs.last() == c {
            assert(select(cs, f)[select(cs, f).len() - 1] == c);
        } else {
            let i = choose|i: int| 0 <= i < cs.len() && cs[i] == c;
            assert(init[i] == c);
            lemma_select_holds(init, f, c);
            let j = choose|j: int| 0 <= j < select(init, f).len() && select(init, f)[j] == c;
            assert(select(cs, f)[j] == c);
        }
    }
}

/// Selecting from cards that are all different gives cards that are all
/// different.
pub proof fn lemma_select_distinct(cs: Seq<Card>, f: CardFilter)
    requires
        cs.no_duplicates(),
    ensures
        select(cs, f).no_duplicates(),
    decreases cs.len(),
{
    if cs.len() > 0 {
        let init = cs.drop_last();
        lemma_select_distinct(init, f);
        lemma_select_members(init, f);
        let sub = select(init, f);
        if f.accepts(cs.last()) {
            assert forall|i: int, j: int| 0 <= i < j < select(cs, f).len() implies select(cs, f)[i] != select(cs, f)[j] by {
                if j == sub.len() {
                    assert(init.contains(sub[i]));
                    let k = choose|k: int| 0 <= k < init.len() && init[k] == sub[i];
                    assert(cs[k] == sub[i]);
                    assert(cs[cs.len() - 1] == cs.last());
                }
            }
        }
    }
}

/// Cards of one rank that are all different are four at most.
pub proof fn lemma_four_suits(s: Seq<Card>, r: int)
    requires
        s.no_duplicates(),
        forall|i: int| 0 <= i < s.len() ==> (#[trigger] s[i]).rank() == r,
    ensures
        s.len() <= 4,
{
    if s.len() >= 5 {
        let a = s[0];
        let b = s[1];
        let c = s[2];
        let d = s[3];
        let e = s[4];
        assert(a.0 == b.0 && a.0 == c.0 && a.0 == d.0 && a.0 == e.0) by {
            lemma_rank_names(a, b);
            lemma_rank_names(a, c);
            lemma_rank_names(a, d);
            lemma_rank_names(a, e);
        }
        assert(a != b && a != c && a != d && a != e && b != c && b != d && b != e && c != d && c != e && d != e);
        assert(false);
    }
}

/// Two cards of one rank number have the same rank.
pub proof fn lemma_rank_names(a: Card, b: Card)
    requires
        a.rank() == b.rank(),
    ensures
        a.0 == b.0,
{
}

/// Among cards that are all different, no rank is held more than four
/// times.
pub proof fn lemma_count_at_most_four(cs: Seq<Card>, r: u8)
    requires
        cs.no_duplicates(),
    ensures
        count_rank(cs, r) <= 4,
{
    lemma_select_distinct(cs, CardFilter::Rank(r));
    lemma_select_members(cs, CardFilter::Rank(r));
    lemma_four_suits(select(cs, CardFilter::Rank(r)), r as int);
}

/// The cards with ranks `r` down to Two are in descending order of rank,
/// hold no rank above `r`, and are the cards of `cs` with those ranks.
pub proof fn lemma_desc_from_sorted(cs: Seq<Card>, r: u8)
    requires
        r <= 14,
    ensures
        forall|i: int| 0 <= i < desc_from(cs, r).len() ==> 2 <= (#[trigger] desc_from(cs, r)[i]).rank() <= r,
        forall|i: int, j: int|
            0 <= i < j < desc_from(cs, r).len() ==> desc_from(cs, r)[i].rank() >= desc_from(cs, r)[j].rank(),
        forall|i: int| 0 <= i < desc_from(cs, r).len() ==> cs.contains(#[trigger] desc_from(cs, r)[i]),
        forall|c: Card| cs.contains(c) && 2 <= c.rank() <= r ==> desc_from(cs, r).contains(c),
    decreases r,
{
    if r >= 2 {
        let head = select(cs, CardFilter::Rank(r));
        let tail = desc_from(cs, (r - 1) as u8);
        let all = desc_from(cs, r);
        lemma_desc_from_sorted(cs, (r - 1) as u8);
        lemma_select_members(cs, CardFilter::Rank(r));
        assert(all == head + tail);
        assert forall|i: int| 0 <= i < all.len() implies 2 <= (#[trigger] all[i]).rank() <= r && cs.contains(all[i]) by {
            if i < head.len() {
                assert(all[i] == head[i]);
            } else {
                assert(all[i] == tail[i - head.len()]);
            }
        }
        assert forall|i: int, j: int| 0 <= i < j < all.len() implies all[i].rank() >= all[j].rank() by {
            if j < head.len() {
                assert(all[i] == head[i] && all[j] == head[j]);
            } else if i < head.len() {
                assert(all[i] == head[i] && all[j] == tail[j - head.len()]);
            } else {
                assert(all[i] == tail[i - head.len()] && all[j] == tail[j - head.len()]);
            }
        }
        assert forall|c: Card| cs.contains(c) && 2 <= c.rank() <= r implies all.contains(c) by {
            if c.rank() == r {
                lemma_select_holds(cs, CardFilter::Rank(r), c);
                let k = choose|k: int| 0 <= k < head.len() && head[k] == c;
                assert(all[k] == c);
            } else {
                let k = choose|k: int| 0 <= k < tail.len() && tail[k] == c;
                assert(all[head.len() + k] == c);
            }
        }
    }
}

/// Ordering by rank keeps the cards: each stays, none is added, and none
/// comes twice where none came twice before.
pub proof fn lemma_sorted_desc_is_sorted(cs: Seq<Card>)
    ensures
        sorted_desc(cs).len() == cs.len(),
        forall|i: int, j: int| 0 <= i < j < cs.len() ==> sorted_desc(cs)[i].rank() >= sorted_desc(cs)[j].rank(),
        forall|i: int| 0 <= i < cs.len() ==> cs.contains(#[trigger] sorted_desc(cs)[i]),
        forall|c: Card| cs.contains(c) ==> sorted_desc(cs).contains(c),
        cs.no_duplicates() ==> sorted_desc(cs).no_duplicates(),
{
    crate::select::lemma_sorted_desc_len(cs);
    lemma_desc_from_sorted(cs, 14);
    if cs.no_duplicates() {
        let s = sorted_desc(cs);
        // As long as `cs`, and holding every card of `cs`: nothing comes twice.
        cs.unique_seq_to_set();
        s.lemma_cardinality_of_set();
        assert(cs.to_set().subset_of(s.to_set())) by {
            assert forall|c: Card| cs.to_set().contains(c) implies s.to_set().contains(c) by {
                assert(s.contains(c));
            }
        }
        vstd::set_lib::lemma_len_subset(cs.to_set(), s.to_set());
        s.lemma_no_dup_set_cardinality();
    }
}

/// Selecting from cards in descending order of rank keeps the order.
pub proof fn lemma_select_keeps_order(s: Seq<Card>, f: CardFilter)
    requires
        forall|i: int, j: int| 0 <= i < j < s.len() ==> s[i].rank() >= s[j].rank(),
    ensures
        forall|i: int, j: int|
            0 <= i < j < select(s, f).len() ==> select(s, f)[i].rank() >= select(s, f)[j].rank(),
    decreases s.len(),
{
    if s.len() > 0 {
        let init = s.drop_last();
        assert forall|i: int, j: int| 0 <= i < j < init.len() implies init[i].rank() >= init[j].rank() by {
            assert(init[i] == s[i] && init[j] == s[j]);
        }
        lemma_select_keeps_order(init, f);
        lemma_select_members(init, f);
        let sub = select(init, f);
        assert forall|i: int, j: int| 0 <= i < j < select(s, f).len() implies select(s, f)[i].rank() >= select(
            s,
            f,
        )[j].rank() by {
            if j == sub.len() {
                assert(init.contains(sub[i]));
                let k = choose|k: int| 0 <= k < init.len() && init[k] == sub[i];
                assert(s[k] == sub[i]);
                assert(s[k].rank() >= s[s.len() - 1].rank());
            }
        }
    }
}

/// Two runs of different cards that hold the same cards have equally
/// many cards that a filter accepts.
pub proof fn lemma_select_same_len(a: Seq<Card>, b: Seq<Card>, f: CardFilter)
    requires
        a.no_duplicates(),
        b.no_duplicates(),
        forall|c: Card| a.contains(c) <==> b.contains(c),
    ensures
        select(a, f).len() == select(b, f).len(),
{
    let x = select(a, f);
    let y = select(b, f);
    lemma_select_distinct(a, f);
    lemma_select_distinct(b, f);
    lemma_select_members(a, f);
    lemma_select_members(b, f);
    assert forall|i: int| 0 <= i < x.len() implies y.contains(#[trigger] x[i]) by {
        lemma_select_holds(b, f, x[i]);
    }
    assert forall|i: int| 0 <= i < y.len() implies x.contains(#[trigger] y[i]) by {
        lemma_select_holds(a, f, y[i]);
    }
    lemma_room_for(y, x);
    lemma_room_for(x, y);
}

/// The cards of one rank and the cards of the other ranks are all cards.
pub proof fn lemma_rank_split(s: Seq<Card>, r: u8)
    ensures
        select(s, CardFilter::Rank(r)).len() + select(s, CardFilter::NotRank(r)).len() == s.len(),
    decreases s.len(),
{
    if s.len() > 0 {
        lemma_rank_split(s.drop_last(), r);
    }
}

/// The cards of other ranks than `r` are the cards but those of rank `r`;
/// they are in descending order of rank, all different, and hold every
/// card of `cs` of another rank.
pub proof fn lemma_kickers(cs: Seq<Card>, r: u8)
    requires
        cs.no_duplicates(),
    ensures
        kickers(cs, r).len() + count_rank(cs, r) == cs.len(),
        kickers(cs, r).no_duplicates(),
        forall|i: int, j: int| 0 <= i < j < kickers(cs, r).len() ==> kickers(cs, r)[i].rank() >= kickers(cs, r)[j].rank(),
        forall|i: int|
            0 <= i < kickers(cs, r).len() ==> cs.contains(#[trigger] kickers(cs, r)[i]) && kickers(cs, r)[i].rank()
                != r,
        forall|c: Card| cs.contains(c) && c.rank() != r ==> kickers(cs, r).contains(c),
{
    let s = sorted_desc(cs);
    lemma_sorted_desc_is_sorted(cs);
    lemma_rank_split(s, r);
    lemma_select_same_len(s, cs, CardFilter::Rank(r));
    lemma_select_distinct(s, CardFilter::NotRank(r));
    lemma_select_keeps_order(s, CardFilter::NotRank(r));
    lemma_select_members(s, CardFilter::NotRank(r));
    assert forall|c: Card| cs.contains(c) && c.rank() != r implies kickers(cs, r).contains(c) by {
        lemma_select_holds(s, CardFilter::NotRank(r), c);
    }
    assert forall|i: int| 0 <= i < kickers(cs, r).len() implies cs.contains(#[trigger] kickers(cs, r)[i]) && kickers(
        cs,
        r,
    )[i].rank() != r by {
        let c = kickers(cs, r)[i];
        assert(s.contains(c));
        let k = choose|k: int| 0 <= k < s.len() && s[k] == c;
        assert(cs.contains(s[k]));
    }
}

/// What the search for the highest qualifying rank finds qualifies, and no
/// higher rank does.
pub proof fn lemma_top_rank(cs: Seq<Card>, size: usize, exactly: bool, others: usize, skip: u8, from: u8)
    requires
        from <= 14,
    ensures
        ({
            let top = top_rank_with(cs, size, exactly, others, skip, from);
            &&& top == 0 || (2 <= top <= from && top != skip && qualifies(cs, top, size, exactly, others))
            &&& forall|r: u8|
                2 <= r <= from && r != skip && #[trigger] qualifies(cs, r, size, exactly, others) ==> top >= r
        }),
    decreases from,
{
    if from >= 2 {
        lemma_top_rank(cs, size, exactly, others, skip, (from - 1) as u8);
    }
}

/// A hand of cards from `cs` holds no rank more often than `cs` does.
pub proof fn lemma_hand_counts(h: FullHand, cs: Seq<Card>, r: u8)
    requires
        drawn_from(h, cs),
    ensures
        h.count_of(r as int) <= count_rank(cs, r),
        0 <= h.count_of(r as int) <= 5,
{
    let five = h.cards_seq();
    let items = select(five, CardFilter::Rank(r));
    assert(items.len() == h.count_of(r as int)) by {
        reveal_with_fuel(select, 6);
        assert(five.drop_last() =~= seq![h.0, h.1, h.2, h.3]);
        assert(five.drop_last().drop_last() =~= seq![h.0, h.1, h.2]);
        assert(five.drop_last().drop_last().drop_last() =~= seq![h.0, h.1]);
        assert(five.drop_last().drop_last().drop_last().drop_last() =~= seq![h.0]);
        assert(five.drop_last().drop_last().drop_last().drop_last().drop_last() =~= Seq::<Card>::empty());
    }
    assert(five.no_duplicates());
    lemma_select_distinct(five, CardFilter::Rank(r));
    lemma_select_members(five, CardFilter::Rank(r));
    assert forall|i: int| 0 <= i < items.len() implies select(cs, CardFilter::Rank(r)).contains(#[trigger] items[i]) by {
        let c = items[i];
        assert(five.contains(c));
        let k = choose|k: int| 0 <= k < five.len() && five[k] == c;
        assert(cs.contains(c));
        lemma_select_holds(cs, CardFilter::Rank(r), c);
    }
    lemma_room_for(select(cs, CardFilter::Rank(r)), items);
}

/// The next weight below a bound is the weight of a card of the hand, and
/// no card of the hand has a weight between it and the bound.
pub proof fn lemma_next_weight(h: FullHand, bound: int)
    ensures
        ({
            let w = h.next_weight(bound);
            let w0 = h.weight(h.0.rank());
            let w1 = h.weight(h.1.rank());
            let w2 = h.weight(h.2.rank());
            let w3 = h.weight(h.3.rank());
            let w4 = h.weight(h.4.rank());
            &&& w >= 0
            &&& w > 0 ==> w < bound && (w == w0 || w == w1 || w == w2 || w == w3 || w == w4)
            &&& w0 < bound ==> w0 <= w
            &&& w1 < bound ==> w1 <= w
            &&& w2 < bound ==> w2 <= w
            &&& w3 < bound ==> w3 <= w
            &&& w4 < bound ==> w4 <= w
            &&& 18 <= w0 <= 94 && 18 <= w1 <= 94 && 18 <= w2 <= 94 && 18 <= w3 <= 94 && 18 <= w4 <= 94
        }),
{
}

/// The weight of the `k`-th group of the hand, heaviest first; 0 where the
/// hand has no more than `k` groups.
#[verifier::opaque]
pub open spec fn group_weight(h: FullHand, k: nat) -> int
    decreases k,
{
    if k == 0 {
        h.next_weight(100)
    } else if group_weight(h, (k - 1) as nat) > 0 {
        h.next_weight(group_weight(h, (k - 1) as nat))
    } else {
        0
    }
}

/// The rank of the `k`-th group of the hand.
pub open spec fn group_rank(h: FullHand, k: nat) -> int {
    group_weight(h, k) % 16
}

/// The ranked groups from the `k`-th on are the groups below the weight
/// of the group before.
pub proof fn lemma_groups_from(h: FullHand, k: nat)
    requires
        k < 6,
        k > 0 ==> group_weight(h, (k - 1) as nat) > 0,
    ensures
        ({
            let rest = h.groups_below(
                if k == 0 {
                    100
                } else {
                    group_weight(h, (k - 1) as nat)
                },
            );
            let w = group_weight(h, k);
            &&& w >= 0
            &&& w == 0 ==> rest.len() == 0
            &&& w > 0 ==> rest.len() > 0 && rest[0] == CardNumber::spec_from_value(w % 16) && rest.drop_first()
                == h.groups_below(w) && rest[0].spec_value() == w % 16 && 2 <= w % 16 <= 14
        }),
{
    reveal(group_weight);
    let bound = if k == 0 {
        100
    } else {
        group_weight(h, (k - 1) as nat)
    };
    lemma_next_weight(h, bound);
    let w = group_weight(h, k);
    assert(w == h.next_weight(bound));
    if w > 0 {
        let rest = h.groups_below(bound);
        assert(rest =~= seq![CardNumber::spec_from_value(w % 16)] + h.groups_below(w));
        assert(rest.drop_first() =~= h.groups_below(w));
        lemma_weight_rank(h, w);
    }
}

/// A weight splits into the size of the group and the rank.
proof fn lemma_weight_parts(count: int, rank: int)
    requires
        0 <= count,
        0 <= rank < 16,
    ensures
        (count * 16 + rank) % 16 == rank,
        (count * 16 + rank) / 16 == count,
{
}

/// The weight of a card's group in a hand.
proof fn lemma_card_weight(h: FullHand, c: Card)
    requires
        c == h.0 || c == h.1 || c == h.2 || c == h.3 || c == h.4,
    ensures
        ({
            let w = h.weight(c.rank());
            &&& 2 <= c.rank() <= 14
            &&& 1 <= h.count_of(c.rank()) <= 5
            &&& w % 16 == c.rank()
            &&& w / 16 == h.count_of(c.rank())
            &&& CardNumber::spec_from_value(c.rank()).spec_value() == c.rank()
        }),
{
    lemma_weight_parts(h.count_of(c.rank()), c.rank());
}

/// A weight of a card of the hand holds the card's rank in its last four
/// bits and the size of its group above.
pub proof fn lemma_weight_rank(h: FullHand, w: int)
    requires
        w == h.weight(h.0.rank()) || w == h.weight(h.1.rank()) || w == h.weight(h.2.rank()) || w == h.weight(
            h.3.rank(),
        ) || w == h.weight(h.4.rank()),
    ensures
        2 <= w % 16 <= 14,
        1 <= w / 16 <= 5,
        h.count_of(w % 16) == w / 16,
        w == h.weight(w % 16),
        w % 16 == h.0.rank() || w % 16 == h.1.rank() || w % 16 == h.2.rank() || w % 16 == h.3.rank() || w % 16
            == h.4.rank(),
        CardNumber::spec_from_value(w % 16).spec_value() == w % 16,
{
    if w == h.weight(h.0.rank()) {
        lemma_card_weight(h, h.0);
    } else if w == h.weight(h.1.rank()) {
        lemma_card_weight(h, h.1);
    } else if w == h.weight(h.2.rank()) {
        lemma_card_weight(h, h.2);
    } else if w == h.weight(h.3.rank()) {
        lemma_card_weight(h, h.3);
    } else {
        lemma_card_weight(h, h.4);
    }
}

/// Both hands have a `k`-th group.
pub open spec fn both_have(b: FullHand, t: FullHand, k: nat) -> bool {
    group_weight(b, k) > 0 && group_weight(t, k) > 0
}

/// The `k`-th groups of the hands have one rank.
pub open spec fn same_group(b: FullHand, t: FullHand, k: nat) -> bool {
    group_rank(b, k) == group_rank(t, k)
}

/// Where, group by group, the first hand's rank is no lower than the
/// second's as long as all groups before were equal, the second hand's
/// groups do not win.
pub proof fn lemma_groups_not_lower(b: FullHand, t: FullHand)
    requires
        both_have(b, t, 0) ==> group_rank(b, 0) >= group_rank(t, 0),
        both_have(b, t, 1) && same_group(b, t, 0) ==> group_rank(b, 1) >= group_rank(t, 1),
        both_have(b, t, 2) && same_group(b, t, 0) && same_group(b, t, 1) ==> group_rank(b, 2) >= group_rank(t, 2),
        both_have(b, t, 3) && same_group(b, t, 0) && same_group(b, t, 1) && same_group(b, t, 2) ==> group_rank(b, 3)
            >= group_rank(t, 3),
        both_have(b, t, 4) && same_group(b, t, 0) && same_group(b, t, 1) && same_group(b, t, 2) && same_group(b, t, 3)
            ==> group_rank(b, 4) >= group_rank(t, 4),
    ensures
        prefix_compare(b.ranked_groups(), t.ranked_groups()) != Winner::Hand2,
{
    lemma_groups_after(b, t, 0);
}

/// The same, from the `k`-th group on, where all groups before were equal.
proof fn lemma_groups_after(b: FullHand, t: FullHand, k: nat)
    requires
        k <= 5,
        k > 0 ==> both_have(b, t, (k - 1) as nat),
        k >= 1 ==> same_group(b, t, 0),
        k >= 2 ==> same_group(b, t, 1),
        k >= 3 ==> same_group(b, t, 2),
        k >= 4 ==> same_group(b, t, 3),
        k >= 5 ==> same_group(b, t, 4),
        both_have(b, t, 0) ==> group_rank(b, 0) >= group_rank(t, 0),
        both_have(b, t, 1) && same_group(b, t, 0) ==> group_rank(b, 1) >= group_rank(t, 1),
        both_have(b, t, 2) && same_group(b, t, 0) && same_group(b, t, 1) ==> group_rank(b, 2) >= group_rank(t, 2),
        both_have(b, t, 3) && same_group(b, t, 0) && same_group(b, t, 1) && same_group(b, t, 2) ==> group_rank(b, 3)
            >= group_rank(t, 3),
        both_have(b, t, 4) && same_group(b, t, 0) && same_group(b, t, 1) && same_group(b, t, 2) && same_group(b, t, 3)
            ==> group_rank(b, 4) >= group_rank(t, 4),
    ensures
        prefix_compare(
            b.groups_below(
                if k == 0 {
                    100
                } else {
                    group_weight(b, (k - 1) as nat)
                },
            ),
            t.groups_below(
                if k == 0 {
                    100
                } else {
                    group_weight(t, (k - 1) as nat)
                },
            ),
        ) != Winner::Hand2,
    decreases 5 - k,
{
    lemma_groups_from(b, k);
    lemma_groups_from(t, k);
    let wb = group_weight(b, k);
    let wt = group_weight(t, k);
    if wb > 0 && wt > 0 {
        if k == 5 {
            lemma_five_groups_at_most(b);
        } else {
            assert(group_rank(b, k) >= group_rank(t, k));
            if group_rank(b, k) == group_rank(t, k) {
                lemma_groups_after(b, t, k + 1);
            }
        }
    }
}

/// A hand has five groups at most.
pub proof fn lemma_five_groups_at_most(h: FullHand)
    ensures
        group_weight(h, 5) == 0,
{
    reveal(group_weight);
    lemma_next_weight(h, 100);
    let a = group_weight(h, 0);
    lemma_next_weight(h, a);
    let b = group_weight(h, 1);
    lemma_next_weight(h, b);
    let c = group_weight(h, 2);
    lemma_next_weight(h, c);
    let d = group_weight(h, 3);
    lemma_next_weight(h, d);
    let e = group_weight(h, 4);
    lemma_next_weight(h, e);
    assert(group_weight(h, 1) == (if a > 0 {
        h.next_weight(a)
    } else {
        0
    }));
    assert(group_weight(h, 2) == (if b > 0 {
        h.next_weight(b)
    } else {
        0
    }));
    assert(group_weight(h, 3) == (if c > 0 {
        h.next_weight(c)
    } else {
        0
    }));
    assert(group_weight(h, 4) == (if d > 0 {
        h.next_weight(d)
    } else {
        0
    }));
    assert(group_weight(h, 5) == (if e > 0 {
        h.next_weight(e)
    } else {
        0
    }));
}

/// A card of the hand whose group has the weight of the `k`-th group.
pub open spec fn group_card(h: FullHand, k: nat) -> Card {
    let w = group_weight(h, k);
    if h.weight(h.0.rank()) == w {
        h.0
    } else if h.weight(h.1.rank()) == w {
        h.1
    } else if h.weight(h.2.rank()) == w {
        h.2
    } else if h.weight(h.3.rank()) == w {
        h.3
    } else {
        h.4
    }
}

/// The `k`-th group of a hand, where the hand has one: its card is a card
/// of the hand, its weight is below that of the group before, and every
/// card of the hand with a weight below that of the group before weighs no
/// more than it.
pub proof fn lemma_group(h: FullHand, k: nat)
    requires
        group_weight(h, k) > 0,
    ensures
        ({
            let c = group_card(h, k);
            let w = group_weight(h, k);
            let bound = if k == 0 {
                100
            } else {
                group_weight(h, (k - 1) as nat)
            };
            &&& c == h.0 || c == h.1 || c == h.2 || c == h.3 || c == h.4
            &&& h.weight(c.rank()) == w
            &&& group_rank(h, k) == c.rank()
            &&& w == h.count_of(c.rank()) * 16 + c.rank()
            &&& 2 <= c.rank() <= 14
            &&& 1 <= h.count_of(c.rank())
            &&& w < bound
            &&& k > 0 ==> bound > 0
            &&& h.weight(h.0.rank()) < bound ==> h.weight(h.0.rank()) <= w
            &&& h.weight(h.1.rank()) < bound ==> h.weight(h.1.rank()) <= w
            &&& h.weight(h.2.rank()) < bound ==> h.weight(h.2.rank()) <= w
            &&& h.weight(h.3.rank()) < bound ==> h.weight(h.3.rank()) <= w
            &&& h.weight(h.4.rank()) < bound ==> h.weight(h.4.rank()) <= w
        }),
{
    reveal(group_weight);
    let bound = if k == 0 {
        100
    } else {
        group_weight(h, (k - 1) as nat)
    };
    lemma_next_weight(h, bound);
    let c = group_card(h, k);
    lemma_card_weight(h, c);
}

/// In cards in descending order of rank, a card with `n` different cards
/// of higher rank before it stands at place `n` or later: the card at
/// place `n` has its rank or a higher one.
pub proof fn lemma_place(pool: Seq<Card>, c: Card, higher: Seq<Card>)
    requires
        forall|i: int, j: int| 0 <= i < j < pool.len() ==> pool[i].rank() >= pool[j].rank(),
        pool.contains(c),
        higher.no_duplicates(),
        forall|i: int| 0 <= i < higher.len() ==> pool.contains(#[trigger] higher[i]) && higher[i].rank() > c.rank(),
    ensures
        higher.len() < pool.len(),
        pool[higher.len() as int].rank() >= c.rank(),
{
    let at = choose|at: int| 0 <= at < pool.len() && pool[at] == c;
    let before = pool.take(at);
    assert forall|i: int| 0 <= i < higher.len() implies before.contains(#[trigger] higher[i]) by {
        let k = choose|k: int| 0 <= k < pool.len() && pool[k] == higher[i];
        if k >= at {
            if k > at {
                assert(pool[at].rank() >= pool[k].rank());
            }
        }
        assert(before[k] == higher[i]);
    }
    lemma_room_for(before, higher);
    if higher.len() < at {
        assert(pool[higher.len() as int].rank() >= pool[at].rank());
    }
}

/// A hand of five different ranks holds each of them once.
pub proof fn lemma_singles(h: FullHand)
    requires
        h.distinct_ranks() == 5,
    ensures
        h.count_of(h.0.rank()) == 1,
        h.count_of(h.1.rank()) == 1,
        h.count_of(h.2.rank()) == 1,
        h.count_of(h.3.rank()) == 1,
        h.count_of(h.4.rank()) == 1,
{
}

/// Two different cards of one rank make the rank count twice.
pub proof fn lemma_two_of_rank(cs: Seq<Card>, a: Card, b: Card)
    requires
        cs.contains(a),
        cs.contains(b),
        a != b,
        a.rank() == b.rank(),
        2 <= a.rank() <= 14,
    ensures
        count_rank(cs, a.rank() as u8) >= 2,
{
    let f = CardFilter::Rank(a.rank() as u8);
    lemma_select_holds(cs, f, a);
    lemma_select_holds(cs, f, b);
    let items = seq![a, b];
    assert(items[0] == a && items[1] == b);
    lemma_room_for(select(cs, f), items);
}

/// The groups of a hand whose cards stand in strictly descending order of
/// rank are its cards.
pub proof fn lemma_ordered_groups(b: FullHand)
    requires
        b.0.rank() > b.1.rank() > b.2.rank() > b.3.rank() > b.4.rank(),
    ensures
        group_weight(b, 0) == 16 + b.0.rank(),
        group_weight(b, 1) == 16 + b.1.rank(),
        group_weight(b, 2) == 16 + b.2.rank(),
        group_weight(b, 3) == 16 + b.3.rank(),
        group_weight(b, 4) == 16 + b.4.rank(),
        group_rank(b, 0) == b.0.rank(),
        group_rank(b, 1) == b.1.rank(),
        group_rank(b, 2) == b.2.rank(),
        group_rank(b, 3) == b.3.rank(),
        group_rank(b, 4) == b.4.rank(),
{
    reveal(group_weight);
    lemma_card_weight(b, b.0);
    lemma_card_weight(b, b.1);
    lemma_card_weight(b, b.2);
    lemma_card_weight(b, b.3);
    lemma_card_weight(b, b.4);
    assert(b.next_weight(100) == 16 + b.0.rank());
    assert(group_weight(b, 0) == 16 + b.0.rank());
    assert(b.next_weight(16 + b.0.rank()) == 16 + b.1.rank());
    assert(group_weight(b, 1) == 16 + b.1.rank());
    assert(b.next_weight(16 + b.1.rank()) == 16 + b.2.rank());
    assert(group_weight(b, 2) == 16 + b.2.rank());
    assert(b.next_weight(16 + b.2.rank()) == 16 + b.3.rank());
    assert(group_weight(b, 3) == 16 + b.3.rank());
    assert(b.next_weight(16 + b.3.rank()) == 16 + b.4.rank());
    assert(group_weight(b, 4) == 16 + b.4.rank());
}

/// The cards of the groups `first` up to, and without, `k` of a hand.
pub open spec fn group_cards(h: FullHand, first: nat, k: nat) -> Seq<Card> {
    Seq::new((k - first) as nat, |i: int| group_card(h, (first + i) as nat))
}

/// Where the groups `first` to `k` of a hand are single cards from a pool
/// in descending order of rank, the rank of group `k` is no higher than
/// that of the pool's card at place `k - first`.
pub proof fn lemma_single_group_bound(h: FullHand, pool: Seq<Card>, first: nat, k: nat)
    requires
        first <= k < 5,
        forall|i: int, j: int| 0 <= i < j < pool.len() ==> pool[i].rank() >= pool[j].rank(),
        group_weight(h, k) > 0,
        forall|j: nat|
            first <= j <= k ==> h.count_of(#[trigger] group_card(h, j).rank()) == 1 && pool.contains(group_card(h, j)),
    ensures
        k - first < pool.len(),
        pool[k - first].rank() >= group_rank(h, k),
{
    lemma_groups_fall(h, first, k);
    let higher = group_cards(h, first, k);
    let c = group_card(h, k);
    lemma_group(h, k);
    assert forall|i: int| 0 <= i < higher.len() implies pool.contains(#[trigger] higher[i]) && higher[i].rank()
        > c.rank() by {
        let j = (first + i) as nat;
        lemma_group(h, j);
        assert(h.count_of(group_card(h, j).rank()) == 1);
        assert(h.count_of(group_card(h, k).rank()) == 1);
        assert(group_weight(h, j) > group_weight(h, k));
    }
    assert forall|i: int, j: int| 0 <= i < j < higher.len() implies higher[i] != higher[j] by {
        let a = (first + i) as nat;
        let b = (first + j) as nat;
        lemma_group(h, a);
        lemma_group(h, b);
        assert(group_weight(h, a) > group_weight(h, b));
    }
    lemma_place(pool, c, higher);
}

/// The weights of the groups fall: every group before the `k`-th is
/// there and heavier.
pub proof fn lemma_groups_fall(h: FullHand, first: nat, k: nat)
    requires
        first <= k,
        group_weight(h, k) > 0,
    ensures
        forall|j: nat| first <= j < k ==> #[trigger] group_weight(h, j) > group_weight(h, k),
        forall|a: nat, b: nat| first <= a < b <= k ==> #[trigger] group_weight(h, a) > #[trigger] group_weight(h, b),
    decreases k,
{
    if k > 0 {
        lemma_group(h, k);
        if first < k {
            lemma_groups_fall(h, first, (k - 1) as nat);
        }
    }
}

/// The kickers of a hand: where the groups of `t` after the `first`
/// leading ones (of the ranks `r1` and `r2`) are single cards from a pool
/// in descending order of rank, the `k`-th group is no higher than the
/// pool's card at its place.
proof fn lemma_kicker_at(t: FullHand, cs: Seq<Card>, pool: Seq<Card>, first: nat, k: nat, r1: int, r2: int)
    requires
        drawn_from(t, cs),
        first <= k < 5,
        first <= 2,
        first >= 1 ==> group_weight(t, 0) == t.weight(r1),
        first >= 2 ==> group_weight(t, 1) == t.weight(r2),
        forall|q: u8| 2 <= q <= 14 && (first < 1 || q != r1) && (first < 2 || q != r2) ==> count_rank(cs, q) <= 1,
        forall|i: int, j: int| 0 <= i < j < pool.len() ==> pool[i].rank() >= pool[j].rank(),
        forall|c: Card|
            cs.contains(c) && (first < 1 || c.rank() != r1) && (first < 2 || c.rank() != r2) ==> pool.contains(c),
    ensures
        group_weight(t, k) > 0 ==> k - first < pool.len() && pool[k - first].rank() >= group_rank(t, k),
{
    if group_weight(t, k) > 0 {
        lemma_groups_fall(t, 0, k);
        assert forall|j: nat| first <= j <= k implies t.count_of(#[trigger] group_card(t, j).rank()) == 1
            && pool.contains(group_card(t, j)) by {
            lemma_group(t, j);
            let c = group_card(t, j);
            if first >= 1 {
                assert(group_weight(t, 0) > group_weight(t, j));
            }
            if first >= 2 {
                assert(group_weight(t, 1) > group_weight(t, j));
            }
            lemma_hand_counts(t, cs, c.rank() as u8);
            assert(cs.contains(c));
        }
        lemma_single_group_bound(t, pool, first, k);
    }
}

/// The kickers of a hand of five ranks whose cards are all in a pool in
/// descending order of rank: the `k`-th group is no higher than the pool's
/// `k`-th card.
proof fn lemma_single_at(t: FullHand, pool: Seq<Card>, k: nat)
    requires
        k < 5,
        t.distinct_ranks() == 5,
        pool.contains(t.0) && pool.contains(t.1) && pool.contains(t.2) && pool.contains(t.3) && pool.contains(t.4),
        forall|i: int, j: int| 0 <= i < j < pool.len() ==> pool[i].rank() >= pool[j].rank(),
    ensures
        group_weight(t, k) > 0 ==> k < pool.len() && pool[k as int].rank() >= group_rank(t, k),
{
    if group_weight(t, k) > 0 {
        lemma_groups_fall(t, 0, k);
        lemma_singles(t);
        assert forall|j: nat| j <= k implies t.count_of(#[trigger] group_card(t, j).rank()) == 1 && pool.contains(
            group_card(t, j),
        ) by {
            lemma_group(t, j);
        }
        lemma_single_group_bound(t, pool, 0, k);
    }
}

/// The one kicker of a hand: where the group `k` of `t` has another rank
/// than `r1` and `r2`, it is no higher than the first card of a pool that
/// holds all cards of other ranks in descending order.
proof fn lemma_top_kicker(t: FullHand, cs: Seq<Card>, pool: Seq<Card>, k: nat, r1: int, r2: int)
    requires
        drawn_from(t, cs),
        1 <= k <= 2,
        group_weight(t, 0) == t.weight(r1),
        k == 2 ==> group_weight(t, 1) == t.weight(r2),
        forall|i: int, j: int| 0 <= i < j < pool.len() ==> pool[i].rank() >= pool[j].rank(),
        forall|c: Card| cs.contains(c) && c.rank() != r1 && (k < 2 || c.rank() != r2) ==> pool.contains(c),
    ensures
        group_weight(t, k) > 0 ==> pool.len() > 0 && pool[0].rank() >= group_rank(t, k),
{
    if group_weight(t, k) > 0 {
        lemma_groups_fall(t, 0, k);
        lemma_group(t, k);
        let x = group_card(t, k);
        assert(group_weight(t, 0) > group_weight(t, k));
        if k == 2 {
            assert(group_weight(t, 1) > group_weight(t, k));
        }
        assert(cs.contains(x));
        assert(pool.contains(x));
        let i = choose|i: int| 0 <= i < pool.len() && pool[i] == x;
        if i > 0 {
            assert(pool[0].rank() >= pool[i].rank());
        }
    }
}

/// The high card: where no rank comes twice among the cards, the five
/// highest cards are no lower than any five of the cards that make no
/// better than a high card.
pub proof fn lemma_high_card(cs: Seq<Card>, t: FullHand)
    requires
        5 <= cs.len(),
        cs.no_duplicates(),
        drawn_from(t, cs),
        forall|r: u8| 2 <= r <= 14 ==> count_rank(cs, r) <= 1,
        t.spec_rank().strength() <= HandRank::HighCard.strength(),
    ensures
        spec_high_card(cs) is Some,
        drawn_from(spec_high_card(cs)->Some_0, cs),
        spec_high_card(cs)->Some_0.spec_compare(t) != Winner::Hand2,
{
    let pool = sorted_desc(cs);
    lemma_sorted_desc_is_sorted(cs);
    let b = FullHand(pool[0], pool[1], pool[2], pool[3], pool[4]);
    assert(spec_high_card(cs) == Some(b));
    lemma_strict_pool(cs, pool);
    assert(drawn_from(b, cs));
    lemma_ordered_groups(b);
    lemma_kicker_at(t, cs, pool, 0, 0, 0, 0);
    lemma_kicker_at(t, cs, pool, 0, 1, 0, 0);
    lemma_kicker_at(t, cs, pool, 0, 2, 0, 0);
    lemma_kicker_at(t, cs, pool, 0, 3, 0, 0);
    lemma_kicker_at(t, cs, pool, 0, 4, 0, 0);
    lemma_groups_not_lower(b, t);
    lemma_rank_shape(b);
    lemma_compare_not_lower(b, t);
}

/// Where no rank comes twice among the cards, the cards in descending
/// order of rank fall strictly.
pub proof fn lemma_strict_pool(cs: Seq<Card>, pool: Seq<Card>)
    requires
        forall|r: u8| 2 <= r <= 14 ==> count_rank(cs, r) <= 1,
        pool.no_duplicates(),
        forall|i: int| 0 <= i < pool.len() ==> cs.contains(#[trigger] pool[i]),
        forall|i: int, j: int| 0 <= i < j < pool.len() ==> pool[i].rank() >= pool[j].rank(),
    ensures
        forall|i: int, j: int| 0 <= i < j < pool.len() ==> pool[i].rank() > pool[j].rank(),
{
    assert forall|i: int, j: int| 0 <= i < j < pool.len() implies pool[i].rank() > pool[j].rank() by {
        if pool[i].rank() == pool[j].rank() {
            assert(cs.contains(pool[i]) && cs.contains(pool[j]));
            lemma_two_of_rank(cs, pool[i], pool[j]);
        }
    }
}

/// What the category of a hand says of its cards.
pub proof fn lemma_rank_shape(h: FullHand)
    ensures
        h.spec_rank() == HandRank::RoyalFlush ==> h.is_flush() && h.is_run() && h.top_rank() == 14,
        h.spec_rank() == HandRank::StraightFlush ==> h.is_flush() && h.is_straight() && !(h.is_run() && h.top_rank()
            == 14),
        h.spec_rank() == HandRank::FourOfAKind ==> h.distinct_ranks() == 2 && h.top_count() == 4,
        h.spec_rank() == HandRank::FullHouse ==> h.distinct_ranks() == 2 && h.top_count() == 3,
        h.spec_rank() == HandRank::Flush ==> h.is_flush() && !h.is_straight(),
        h.spec_rank() == HandRank::Straight ==> !h.is_flush() && h.is_straight(),
        h.spec_rank() == HandRank::ThreeOfAKind ==> h.distinct_ranks() == 3 && h.top_count() == 3,
        h.spec_rank() == HandRank::TwoPair ==> h.distinct_ranks() == 3 && h.top_count() == 2,
        h.spec_rank() == HandRank::Pair ==> h.distinct_ranks() == 4,
        h.is_flush() && h.is_straight() ==> h.spec_rank().strength() >= 8,
        h.is_flush() ==> h.spec_rank().strength() >= 5,
        h.is_straight() ==> h.spec_rank().strength() >= 4,
        h.distinct_ranks() == 2 && h.top_count() == 4 ==> h.spec_rank().strength() >= 7,
        h.distinct_ranks() == 2 && h.top_count() == 3 ==> h.spec_rank().strength() >= 6,
        h.distinct_ranks() == 3 && h.top_count() == 3 ==> h.spec_rank().strength() >= 3,
        h.distinct_ranks() == 3 && h.top_count() == 2 ==> h.spec_rank().strength() >= 2,
        h.distinct_ranks() == 4 ==> h.spec_rank().strength() >= 1,
        0 <= h.spec_rank().strength() <= 9,
{
    reveal(FullHand::spec_rank);
}

/// A card of the hand whose rank the hand holds most often.
pub open spec fn most_card(h: FullHand) -> Card {
    let most = h.top_count();
    if h.count_of(h.0.rank()) == most {
        h.0
    } else if h.count_of(h.1.rank()) == most {
        h.1
    } else if h.count_of(h.2.rank()) == most {
        h.2
    } else if h.count_of(h.3.rank()) == most {
        h.3
    } else {
        h.4
    }
}

/// The rank that a hand holds most often is held as often as the largest
/// group is large; a hand of fewer than five ranks holds a rank twice.
pub proof fn lemma_most_card(h: FullHand)
    ensures
        ({
            let c = most_card(h);
            &&& c == h.0 || c == h.1 || c == h.2 || c == h.3 || c == h.4
            &&& h.count_of(c.rank()) == h.top_count()
            &&& 2 <= c.rank() <= 14
            &&& 1 <= h.top_count() <= 5
            &&& h.distinct_ranks() < 5 ==> h.top_count() >= 2
            &&& h.distinct_ranks() == 5 ==> h.top_count() == 1
        }),
{
}

/// The groups of a hand of a pair and three falling kickers.
pub proof fn lemma_pair_groups(b: FullHand)
    requires
        b.0.rank() == b.1.rank(),
        b.2.rank() > b.3.rank() > b.4.rank(),
        b.2.rank() != b.0.rank(),
        b.3.rank() != b.0.rank(),
        b.4.rank() != b.0.rank(),
    ensures
        group_weight(b, 0) == 32 + b.0.rank(),
        group_weight(b, 1) == 16 + b.2.rank(),
        group_weight(b, 2) == 16 + b.3.rank(),
        group_weight(b, 3) == 16 + b.4.rank(),
        group_weight(b, 4) == 0,
        group_rank(b, 0) == b.0.rank(),
        group_rank(b, 1) == b.2.rank(),
        group_rank(b, 2) == b.3.rank(),
        group_rank(b, 3) == b.4.rank(),
        b.distinct_ranks() == 4,
{
    reveal(group_weight);
    lemma_card_weight(b, b.0);
    lemma_card_weight(b, b.2);
    lemma_card_weight(b, b.3);
    lemma_card_weight(b, b.4);
    lemma_weight_parts(2, b.0.rank());
    assert(b.count_of(b.0.rank()) == 2);
    assert(b.next_weight(100) == 32 + b.0.rank());
    assert(group_weight(b, 0) == 32 + b.0.rank());
    assert(b.next_weight(32 + b.0.rank()) == 16 + b.2.rank());
    assert(group_weight(b, 1) == 16 + b.2.rank());
    assert(b.next_weight(16 + b.2.rank()) == 16 + b.3.rank());
    assert(group_weight(b, 2) == 16 + b.3.rank());
    assert(b.next_weight(16 + b.3.rank()) == 16 + b.4.rank());
    assert(group_weight(b, 3) == 16 + b.4.rank());
    assert(b.next_weight(16 + b.4.rank()) == 0);
    assert(group_weight(b, 4) == 0);
}

/// A hand of a category that is no weaker, whose groups are no lower where
/// the categories are equal, and which is the wheel only where the other
/// is, does not lose.
pub proof fn lemma_compare_not_lower(b: FullHand, t: FullHand)
    requires
        b.spec_rank().strength() >= t.spec_rank().strength(),
        b.spec_rank().strength() == t.spec_rank().strength() && b.spec_is_wheel() ==> t.spec_is_wheel(),
        b.spec_rank().strength() == t.spec_rank().strength() && (b.spec_is_wheel() == t.spec_is_wheel() || (
        b.spec_rank() != HandRank::Straight && b.spec_rank() != HandRank::StraightFlush)) ==> prefix_compare(
            b.ranked_groups(),
            t.ranked_groups(),
        ) != Winner::Hand2,
    ensures
        b.spec_compare(t) != Winner::Hand2,
{
}

/// The hand that the search for a pair puts together, where it finds one.
proof fn lemma_pair_hand(cs: Seq<Card>, r: u8) -> (b: FullHand)
    requires
        5 <= cs.len(),
        cs.no_duplicates(),
        2 <= r <= 14,
        count_rank(cs, r) == 2,
        forall|a: u8, b: u8|
            2 <= a <= 14 && 2 <= b <= 14 && a != b ==> !(count_rank(cs, a) >= 2 && count_rank(cs, b) >= 2),
    ensures
        b == FullHand(
            select(cs, CardFilter::Rank(r))[0],
            select(cs, CardFilter::Rank(r))[1],
            kickers(cs, r)[0],
            kickers(cs, r)[1],
            kickers(cs, r)[2],
        ),
        kickers(cs, r).len() >= 3,
        drawn_from(b, cs),
        b.0.rank() == r,
        b.1.rank() == r,
        b.2.rank() > b.3.rank() > b.4.rank(),
        b.2.rank() != r && b.3.rank() != r && b.4.rank() != r,
{
    let two = select(cs, CardFilter::Rank(r));
    let rest = kickers(cs, r);
    lemma_kickers(cs, r);
    lemma_select_distinct(cs, CardFilter::Rank(r));
    lemma_select_members(cs, CardFilter::Rank(r));
    let b = FullHand(two[0], two[1], rest[0], rest[1], rest[2]);
    assert forall|i: int, j: int| 0 <= i < j < 3 implies rest[i].rank() > rest[j].rank() by {
        if rest[i].rank() == rest[j].rank() {
            lemma_two_of_rank(cs, rest[i], rest[j]);
        }
    }
    assert(rest[0].rank() > rest[1].rank() > rest[2].rank());
    assert(cs.contains(two[0]) && cs.contains(two[1]) && two[0] != two[1]);
    assert(cs.contains(rest[0]) && cs.contains(rest[1]) && cs.contains(rest[2]));
    b
}


/// The pair: where no rank comes three times among the cards and no two
/// ranks come twice, a pair is found if a rank comes twice, and it is no
/// lower, with the three highest other cards, than any five of the cards
/// that make no better than a pair.
pub proof fn lemma_pair(cs: Seq<Card>, t: FullHand)
    requires
        5 <= cs.len(),
        cs.no_duplicates(),
        drawn_from(t, cs),
        forall|r: u8| 2 <= r <= 14 ==> count_rank(cs, r) <= 2,
        forall|a: u8, b: u8|
            2 <= a <= 14 && 2 <= b <= 14 && a != b ==> !(count_rank(cs, a) >= 2 && count_rank(cs, b) >= 2),
        t.spec_rank().strength() <= HandRank::Pair.strength(),
    ensures
        spec_pair(cs) is None ==> (forall|r: u8| 2 <= r <= 14 ==> count_rank(cs, r) <= 1) && t.spec_rank().strength()
            <= HandRank::HighCard.strength(),
        spec_pair(cs) matches Some(b) ==> drawn_from(b, cs) && b.spec_compare(t) != Winner::Hand2,
{
    let r = top_rank_with(cs, 2, false, 3, 0, 14);
    lemma_top_rank(cs, 2, false, 3, 0, 14);
    if r == 0 {
        assert forall|q: u8| 2 <= q <= 14 implies count_rank(cs, q) <= 1 by {
            if count_rank(cs, q) >= 2 {
                lemma_kickers(cs, q);
                assert(qualifies(cs, q, 2, false, 3));
            }
        }
        lemma_pair_needs_two(cs, t);
    } else {
        let b = lemma_pair_hand(cs, r);
        assert(spec_pair(cs) == Some(b));
        lemma_pair_compare(cs, t, b, r);
    }
}

/// A hand that makes a pair or better by its groups holds a rank twice.
proof fn lemma_pair_needs_two(cs: Seq<Card>, t: FullHand)
    requires
        drawn_from(t, cs),
        forall|r: u8| 2 <= r <= 14 ==> count_rank(cs, r) <= 1,
    ensures
        t.distinct_ranks() == 5,
        t.spec_rank() != HandRank::Pair,
        t.spec_rank() != HandRank::TwoPair,
        t.spec_rank() != HandRank::ThreeOfAKind,
        t.spec_rank() != HandRank::FullHouse,
        t.spec_rank() != HandRank::FourOfAKind,
{
    lemma_rank_shape(t);
    lemma_most_card(t);
    lemma_hand_counts(t, cs, most_card(t).rank() as u8);
}

/// The comparison of the pair that was found with five of the cards.
proof fn lemma_pair_compare(cs: Seq<Card>, t: FullHand, b: FullHand, r: u8)
    requires
        5 <= cs.len(),
        cs.no_duplicates(),
        drawn_from(t, cs),
        2 <= r <= 14,
        count_rank(cs, r) == 2,
        forall|q: u8| 2 <= q <= 14 && q != r ==> count_rank(cs, q) <= 1,
        t.spec_rank().strength() <= HandRank::Pair.strength(),
        kickers(cs, r).len() >= 3,
        b.0.rank() == r,
        b.1.rank() == r,
        b.2 == kickers(cs, r)[0],
        b.3 == kickers(cs, r)[1],
        b.4 == kickers(cs, r)[2],
        b.2.rank() > b.3.rank() > b.4.rank(),
        b.2.rank() != r && b.3.rank() != r && b.4.rank() != r,
    ensures
        b.spec_compare(t) != Winner::Hand2,
{
    let rest = kickers(cs, r);
    lemma_kickers(cs, r);
    lemma_pair_groups(b);
    lemma_rank_shape(b);
    lemma_rank_shape(t);
    if t.spec_rank().strength() == b.spec_rank().strength() {
        lemma_most_card(t);
        lemma_hand_counts(t, cs, most_card(t).rank() as u8);
        lemma_lead_group(t, cs, r, 2);
        lemma_kicker_at(t, cs, rest, 1, 1, r as int, 0);
        lemma_kicker_at(t, cs, rest, 1, 2, r as int, 0);
        lemma_kicker_at(t, cs, rest, 1, 3, r as int, 0);
        lemma_groups_not_lower(b, t);
    }
    lemma_compare_not_lower(b, t);
}

/// The leading group of a hand whose largest group has `size` cards of rank
/// `r`, where `cs` holds no other rank as often.
proof fn lemma_lead_group(t: FullHand, cs: Seq<Card>, r: u8, size: int)
    requires
        drawn_from(t, cs),
        2 <= r <= 14,
        2 <= size <= 4,
        count_rank(cs, r) == size,
        forall|q: u8| 2 <= q <= 14 && q != r ==> count_rank(cs, q) < size,
        t.top_count() == size,
    ensures
        group_weight(t, 0) == size * 16 + r,
        group_rank(t, 0) == r,
        t.count_of(r as int) == size,
{
    reveal(group_weight);
    lemma_most_card(t);
    let m = most_card(t);
    lemma_hand_counts(t, cs, m.rank() as u8);
    assert(m.rank() == r);
    lemma_card_weight(t, m);
    lemma_weight_parts(size, r as int);
    lemma_next_weight(t, 100);
    lemma_counts_within(t, cs);
    lemma_card_weight(t, t.0);
    lemma_card_weight(t, t.1);
    lemma_card_weight(t, t.2);
    lemma_card_weight(t, t.3);
    lemma_card_weight(t, t.4);
    assert(t.weight(t.0.rank()) <= size * 16 + r) by (nonlinear_arith)
        requires
            t.weight(t.0.rank()) == t.count_of(t.0.rank()) * 16 + t.0.rank(),
            t.count_of(t.0.rank()) <= size,
            t.0.rank() <= 14,
            t.count_of(t.0.rank()) == size ==> t.0.rank() == r,
            2 <= r,
    ;
    assert(t.weight(t.1.rank()) <= size * 16 + r) by (nonlinear_arith)
        requires
            t.weight(t.1.rank()) == t.count_of(t.1.rank()) * 16 + t.1.rank(),
            t.count_of(t.1.rank()) <= size,
            t.1.rank() <= 14,
            t.count_of(t.1.rank()) == size ==> t.1.rank() == r,
            2 <= r,
    ;
    assert(t.weight(t.2.rank()) <= size * 16 + r) by (nonlinear_arith)
        requires
            t.weight(t.2.rank()) == t.count_of(t.2.rank()) * 16 + t.2.rank(),
            t.count_of(t.2.rank()) <= size,
            t.2.rank() <= 14,
            t.count_of(t.2.rank()) == size ==> t.2.rank() == r,
            2 <= r,
    ;
    assert(t.weight(t.3.rank()) <= size * 16 + r) by (nonlinear_arith)
        requires
            t.weight(t.3.rank()) == t.count_of(t.3.rank()) * 16 + t.3.rank(),
            t.count_of(t.3.rank()) <= size,
            t.3.rank() <= 14,
            t.count_of(t.3.rank()) == size ==> t.3.rank() == r,
            2 <= r,
    ;
    assert(t.weight(t.4.rank()) <= size * 16 + r) by (nonlinear_arith)
        requires
            t.weight(t.4.rank()) == t.count_of(t.4.rank()) * 16 + t.4.rank(),
            t.count_of(t.4.rank()) <= size,
            t.4.rank() <= 14,
            t.count_of(t.4.rank()) == size ==> t.4.rank() == r,
            2 <= r,
    ;
    assert(t.weight(m.rank()) == size * 16 + r);
}

/// A hand of cards from `cs` holds none of its cards' ranks more often
/// than `cs` does.
pub proof fn lemma_counts_within(h: FullHand, cs: Seq<Card>)
    requires
        drawn_from(h, cs),
    ensures
        h.count_of(h.0.rank()) <= count_rank(cs, h.0.rank() as u8),
        h.count_of(h.1.rank()) <= count_rank(cs, h.1.rank() as u8),
        h.count_of(h.2.rank()) <= count_rank(cs, h.2.rank() as u8),
        h.count_of(h.3.rank()) <= count_rank(cs, h.3.rank() as u8),
        h.count_of(h.4.rank()) <= count_rank(cs, h.4.rank() as u8),
{
    lemma_hand_counts(h, cs, h.0.rank() as u8);
    lemma_hand_counts(h, cs, h.1.rank() as u8);
    lemma_hand_counts(h, cs, h.2.rank() as u8);
    lemma_hand_counts(h, cs, h.3.rank() as u8);
    lemma_hand_counts(h, cs, h.4.rank() as u8);
}

/// The cards of two ranks and the cards of the other ranks are all cards.
pub proof fn lemma_two_rank_split(s: Seq<Card>, a: u8, b: u8)
    requires
        a != b,
    ensures
        select(s, CardFilter::Rank(a)).len() + select(s, CardFilter::Rank(b)).len() + select(
            s,
            CardFilter::NotRanks(a, b),
        ).len() == s.len(),
    decreases s.len(),
{
    if s.len() > 0 {
        lemma_two_rank_split(s.drop_last(), a, b);
    }
}

/// The cards of other ranks than `a` and `b`, highest first: they are the
/// cards but those of the two ranks, in descending order of rank, and hold
/// every card of `cs` of another rank.
pub proof fn lemma_others(cs: Seq<Card>, a: u8, b: u8)
    requires
        cs.no_duplicates(),
        a != b,
    ensures
        ({
            let rest = select(sorted_desc(cs), CardFilter::NotRanks(a, b));
            &&& rest.len() + count_rank(cs, a) + count_rank(cs, b) == cs.len()
            &&& forall|i: int, j: int| 0 <= i < j < rest.len() ==> rest[i].rank() >= rest[j].rank()
            &&& forall|i: int|
                0 <= i < rest.len() ==> cs.contains(#[trigger] rest[i]) && rest[i].rank() != a && rest[i].rank() != b
            &&& forall|c: Card| cs.contains(c) && c.rank() != a && c.rank() != b ==> rest.contains(c)
        }),
{
    let s = sorted_desc(cs);
    let f = CardFilter::NotRanks(a, b);
    let rest = select(s, f);
    lemma_sorted_desc_is_sorted(cs);
    lemma_two_rank_split(s, a, b);
    lemma_select_same_len(s, cs, CardFilter::Rank(a));
    lemma_select_same_len(s, cs, CardFilter::Rank(b));
    lemma_select_keeps_order(s, f);
    lemma_select_members(s, f);
    assert forall|c: Card| cs.contains(c) && c.rank() != a && c.rank() != b implies rest.contains(c) by {
        lemma_select_holds(s, f, c);
    }
    assert forall|i: int| 0 <= i < rest.len() implies cs.contains(#[trigger] rest[i]) && rest[i].rank() != a
        && rest[i].rank() != b by {
        let c = rest[i];
        assert(s.contains(c));
        let k = choose|k: int| 0 <= k < s.len() && s[k] == c;
        assert(cs.contains(s[k]));
    }
}

/// A card of the hand that belongs to a group of two and has another rank
/// than `r`.
pub open spec fn other_pair_card(h: FullHand, r: int) -> Card {
    if h.0.rank() != r && h.count_of(h.0.rank()) == 2 {
        h.0
    } else if h.1.rank() != r && h.count_of(h.1.rank()) == 2 {
        h.1
    } else if h.2.rank() != r && h.count_of(h.2.rank()) == 2 {
        h.2
    } else if h.3.rank() != r && h.count_of(h.3.rank()) == 2 {
        h.3
    } else {
        h.4
    }
}

/// A hand of three ranks with no rank three times holds two pairs.
pub proof fn lemma_two_pairs_in(h: FullHand)
    requires
        h.distinct_ranks() == 3,
        h.top_count() == 2,
    ensures
        ({
            let m = most_card(h);
            let o = other_pair_card(h, m.rank());
            &&& o == h.0 || o == h.1 || o == h.2 || o == h.3 || o == h.4
            &&& o.rank() != m.rank()
            &&& h.count_of(o.rank()) == 2
            &&& h.count_of(m.rank()) == 2
            &&& 2 <= o.rank() <= 14
        }),
{
}

/// The groups of a hand of two pairs, the higher first, and a kicker.
pub proof fn lemma_two_pair_groups(b: FullHand)
    requires
        b.0.rank() == b.1.rank(),
        b.2.rank() == b.3.rank(),
        b.0.rank() > b.2.rank(),
        b.4.rank() != b.0.rank(),
        b.4.rank() != b.2.rank(),
    ensures
        group_weight(b, 0) == 32 + b.0.rank(),
        group_weight(b, 1) == 32 + b.2.rank(),
        group_weight(b, 2) == 16 + b.4.rank(),
        group_weight(b, 3) == 0,
        group_weight(b, 4) == 0,
        group_rank(b, 0) == b.0.rank(),
        group_rank(b, 1) == b.2.rank(),
        group_rank(b, 2) == b.4.rank(),
        b.distinct_ranks() == 3,
        b.top_count() == 2,
{
    reveal(group_weight);
    lemma_card_weight(b, b.0);
    lemma_card_weight(b, b.2);
    lemma_card_weight(b, b.4);
    lemma_weight_parts(2, b.0.rank());
    lemma_weight_parts(2, b.2.rank());
    assert(b.count_of(b.0.rank()) == 2);
    assert(b.count_of(b.2.rank()) == 2);
    assert(b.count_of(b.4.rank()) == 1);
    assert(b.next_weight(100) == 32 + b.0.rank());
    assert(group_weight(b, 0) == 32 + b.0.rank());
    assert(b.next_weight(32 + b.0.rank()) == 32 + b.2.rank());
    assert(group_weight(b, 1) == 32 + b.2.rank());
    assert(b.next_weight(32 + b.2.rank()) == 16 + b.4.rank());
    assert(group_weight(b, 2) == 16 + b.4.rank());
    assert(b.next_weight(16 + b.4.rank()) == 0);
    assert(group_weight(b, 3) == 0);
    assert(group_weight(b, 4) == 0);
}

/// The hand that the search for two pairs puts together.
proof fn lemma_two_pair_hand(cs: Seq<Card>, high: u8, low: u8) -> (b: FullHand)
    requires
        5 <= cs.len(),
        cs.no_duplicates(),
        2 <= low < high <= 14,
        count_rank(cs, high) == 2,
        count_rank(cs, low) == 2,
    ensures
        b == FullHand(
            select(cs, CardFilter::Rank(high))[0],
            select(cs, CardFilter::Rank(high))[1],
            select(cs, CardFilter::Rank(low))[0],
            select(cs, CardFilter::Rank(low))[1],
            select(sorted_desc(cs), CardFilter::NotRanks(high, low))[0],
        ),
        select(sorted_desc(cs), CardFilter::NotRanks(high, low)).len() >= 1,
        drawn_from(b, cs),
        b.0.rank() == high && b.1.rank() == high,
        b.2.rank() == low && b.3.rank() == low,
        b.4.rank() != high && b.4.rank() != low,
{
    let first = select(cs, CardFilter::Rank(high));
    let second = select(cs, CardFilter::Rank(low));
    let rest = select(sorted_desc(cs), CardFilter::NotRanks(high, low));
    lemma_others(cs, high, low);
    lemma_select_distinct(cs, CardFilter::Rank(high));
    lemma_select_members(cs, CardFilter::Rank(high));
    lemma_select_distinct(cs, CardFilter::Rank(low));
    lemma_select_members(cs, CardFilter::Rank(low));
    let b = FullHand(first[0], first[1], second[0], second[1], rest[0]);
    assert(cs.contains(first[0]) && cs.contains(first[1]) && first[0] != first[1]);
    assert(cs.contains(second[0]) && cs.contains(second[1]) && second[0] != second[1]);
    assert(cs.contains(rest[0]));
    b
}

/// The comparison of the two pairs that were found with five of the cards.
proof fn lemma_two_pair_compare(cs: Seq<Card>, t: FullHand, b: FullHand, high: u8, low: u8)
    requires
        5 <= cs.len(),
        cs.no_duplicates(),
        drawn_from(t, cs),
        2 <= low < high <= 14,
        forall|r: u8| 2 <= r <= 14 ==> count_rank(cs, r) <= 2,
        forall|r: u8| 2 <= r <= 14 && count_rank(cs, r) >= 2 ==> r <= high,
        forall|r: u8| 2 <= r <= 14 && count_rank(cs, r) >= 2 && r != high ==> r <= low,
        t.spec_rank().strength() <= HandRank::TwoPair.strength(),
        select(sorted_desc(cs), CardFilter::NotRanks(high, low)).len() >= 1,
        b.0.rank() == high && b.1.rank() == high,
        b.2.rank() == low && b.3.rank() == low,
        b.4 == select(sorted_desc(cs), CardFilter::NotRanks(high, low))[0],
        b.4.rank() != high && b.4.rank() != low,
    ensures
        b.spec_compare(t) != Winner::Hand2,
{
    let rest = select(sorted_desc(cs), CardFilter::NotRanks(high, low));
    lemma_others(cs, high, low);
    lemma_two_pair_groups(b);
    lemma_rank_shape(b);
    lemma_rank_shape(t);
    if t.spec_rank().strength() == b.spec_rank().strength() {
        lemma_two_pair_lead(t, cs);
        let m = most_card(t);
        let o = other_pair_card(t, m.rank());
        let a = if m.rank() > o.rank() {
            m.rank()
        } else {
            o.rank()
        };
        let c = if m.rank() > o.rank() {
            o.rank()
        } else {
            m.rank()
        };
        assert(a as u8 <= high);
        if a == high {
            assert(c as u8 <= low);
            if c == low {
                lemma_top_kicker(t, cs, rest, 2, high as int, low as int);
            }
        }
        lemma_groups_not_lower(b, t);
    }
    lemma_compare_not_lower(b, t);
}

/// The two leading groups of a hand of two pairs are its pairs, the higher
/// first.
proof fn lemma_two_pair_lead(t: FullHand, cs: Seq<Card>)
    requires
        drawn_from(t, cs),
        t.distinct_ranks() == 3,
        t.top_count() == 2,
    ensures
        ({
            let m = most_card(t);
            let o = other_pair_card(t, m.rank());
            &&& group_weight(t, 0) == 32 + (if m.rank() > o.rank() {
                m.rank()
            } else {
                o.rank()
            })
            &&& group_weight(t, 1) == 32 + (if m.rank() > o.rank() {
                o.rank()
            } else {
                m.rank()
            })
            &&& group_rank(t, 0) == (if m.rank() > o.rank() {
                m.rank()
            } else {
                o.rank()
            })
            &&& group_rank(t, 1) == (if m.rank() > o.rank() {
                o.rank()
            } else {
                m.rank()
            })
            &&& count_rank(cs, m.rank() as u8) >= 2
            &&& count_rank(cs, o.rank() as u8) >= 2
            &&& m.rank() != o.rank()
            &&& 2 <= m.rank() <= 14
            &&& 2 <= o.rank() <= 14
        }),
{
    reveal(group_weight);
    lemma_most_card(t);
    lemma_two_pairs_in(t);
    let m = most_card(t);
    let o = other_pair_card(t, m.rank());
    lemma_hand_counts(t, cs, m.rank() as u8);
    lemma_hand_counts(t, cs, o.rank() as u8);
    lemma_card_weight(t, t.0);
    lemma_card_weight(t, t.1);
    lemma_card_weight(t, t.2);
    lemma_card_weight(t, t.3);
    lemma_card_weight(t, t.4);
    lemma_weight_parts(2, m.rank());
    lemma_weight_parts(2, o.rank());
    let a = if m.rank() > o.rank() {
        m.rank()
    } else {
        o.rank()
    };
    let c = if m.rank() > o.rank() {
        o.rank()
    } else {
        m.rank()
    };
    assert(t.count_of(a) == 2 && t.count_of(c) == 2);
    assert(t.weight(a) == 32 + a);
    assert(t.weight(c) == 32 + c);
    lemma_next_weight(t, 100);
    assert(t.next_weight(100) == 32 + a);
    assert(group_weight(t, 0) == 32 + a);
    lemma_next_weight(t, 32 + a);
    assert(t.next_weight(32 + a) == 32 + c);
    assert(group_weight(t, 1) == 32 + c);
}

/// Two pairs: where no rank comes three times among the cards, two pairs
/// are found if two ranks come twice, and they are no lower, with the
/// highest other card, than any five of the cards that make no better
/// than two pairs.
pub proof fn lemma_two_pair(cs: Seq<Card>, t: FullHand)
    requires
        5 <= cs.len(),
        cs.no_duplicates(),
        drawn_from(t, cs),
        forall|r: u8| 2 <= r <= 14 ==> count_rank(cs, r) <= 2,
        t.spec_rank().strength() <= HandRank::TwoPair.strength(),
    ensures
        spec_two_pair(cs) is None ==> (forall|a: u8, b: u8|
            2 <= a <= 14 && 2 <= b <= 14 && a != b ==> !(count_rank(cs, a) >= 2 && count_rank(cs, b) >= 2))
            && t.spec_rank().strength() <= HandRank::Pair.strength(),
        spec_two_pair(cs) matches Some(b) ==> drawn_from(b, cs) && b.spec_compare(t) != Winner::Hand2,
{
    let high = top_rank_with(cs, 2, false, 0, 0, 14);
    lemma_top_rank(cs, 2, false, 0, 0, 14);
    let low = top_rank_with(cs, 2, false, 0, high, 14);
    lemma_top_rank(cs, 2, false, 0, high, 14);
    assert forall|r: u8| 2 <= r <= 14 && count_rank(cs, r) >= 2 implies #[trigger] qualifies(cs, r, 2, false, 0) by {}
    if high == 0 || low == 0 {
        assert forall|a: u8, b: u8| 2 <= a <= 14 && 2 <= b <= 14 && a != b implies !(count_rank(cs, a) >= 2
            && count_rank(cs, b) >= 2) by {
            if count_rank(cs, a) >= 2 && count_rank(cs, b) >= 2 {
                assert(qualifies(cs, a, 2, false, 0));
                assert(qualifies(cs, b, 2, false, 0));
            }
        }
        lemma_rank_shape(t);
        if t.spec_rank() == HandRank::TwoPair {
            lemma_two_pair_lead(t, cs);
        }
    } else {
        let b = lemma_two_pair_hand(cs, high, low);
        assert(spec_two_pair(cs) == Some(b));
        assert forall|r: u8| 2 <= r <= 14 && count_rank(cs, r) >= 2 implies r <= high by {
            assert(qualifies(cs, r, 2, false, 0));
        }
        assert forall|r: u8| 2 <= r <= 14 && count_rank(cs, r) >= 2 && r != high implies r <= low by {
            assert(qualifies(cs, r, 2, false, 0));
        }
        lemma_two_pair_compare(cs, t, b, high, low);
    }
}

/// The groups of a hand of three of one rank and two falling kickers.
pub proof fn lemma_trio_groups(b: FullHand)
    requires
        b.0.rank() == b.1.rank(),
        b.0.rank() == b.2.rank(),
        b.3.rank() > b.4.rank(),
        b.3.rank() != b.0.rank(),
        b.4.rank() != b.0.rank(),
    ensures
        group_weight(b, 0) == 48 + b.0.rank(),
        group_weight(b, 1) == 16 + b.3.rank(),
        group_weight(b, 2) == 16 + b.4.rank(),
        group_weight(b, 3) == 0,
        group_weight(b, 4) == 0,
        group_rank(b, 0) == b.0.rank(),
        group_rank(b, 1) == b.3.rank(),
        group_rank(b, 2) == b.4.rank(),
        b.distinct_ranks() == 3,
        b.top_count() == 3,
{
    reveal(group_weight);
    lemma_card_weight(b, b.0);
    lemma_card_weight(b, b.3);
    lemma_card_weight(b, b.4);
    lemma_weight_parts(3, b.0.rank());
    assert(b.count_of(b.0.rank()) == 3);
    assert(b.count_of(b.3.rank()) == 1);
    assert(b.count_of(b.4.rank()) == 1);
    assert(b.next_weight(100) == 48 + b.0.rank());
    assert(group_weight(b, 0) == 48 + b.0.rank());
    assert(b.next_weight(48 + b.0.rank()) == 16 + b.3.rank());
    assert(group_weight(b, 1) == 16 + b.3.rank());
    assert(b.next_weight(16 + b.3.rank()) == 16 + b.4.rank());
    assert(group_weight(b, 2) == 16 + b.4.rank());
    assert(b.next_weight(16 + b.4.rank()) == 0);
    assert(group_weight(b, 3) == 0);
    assert(group_weight(b, 4) == 0);
}

/// The hand that the search for three of a kind puts together.
proof fn lemma_trio_hand(cs: Seq<Card>, r: u8) -> (b: FullHand)
    requires
        5 <= cs.len(),
        cs.no_duplicates(),
        2 <= r <= 14,
        count_rank(cs, r) == 3,
        forall|q: u8| 2 <= q <= 14 && q != r ==> count_rank(cs, q) <= 1,
    ensures
        b == FullHand(
            select(cs, CardFilter::Rank(r))[0],
            select(cs, CardFilter::Rank(r))[1],
            select(cs, CardFilter::Rank(r))[2],
            kickers(cs, r)[0],
            kickers(cs, r)[1],
        ),
        kickers(cs, r).len() >= 2,
        drawn_from(b, cs),
        b.0.rank() == r && b.1.rank() == r && b.2.rank() == r,
        b.3.rank() > b.4.rank(),
        b.3.rank() != r && b.4.rank() != r,
{
    let three = select(cs, CardFilter::Rank(r));
    let rest = kickers(cs, r);
    lemma_kickers(cs, r);
    lemma_select_distinct(cs, CardFilter::Rank(r));
    lemma_select_members(cs, CardFilter::Rank(r));
    let b = FullHand(three[0], three[1], three[2], rest[0], rest[1]);
    if rest[0].rank() == rest[1].rank() {
        lemma_two_of_rank(cs, rest[0], rest[1]);
    }
    assert(rest[0].rank() >= rest[1].rank());
    assert(cs.contains(three[0]) && cs.contains(three[1]) && cs.contains(three[2]));
    assert(three[0] != three[1] && three[0] != three[2] && three[1] != three[2]);
    assert(cs.contains(rest[0]) && cs.contains(rest[1]) && rest[0] != rest[1]);
    b
}

/// The comparison of the three of a kind that was found with five of the
/// cards.
proof fn lemma_trio_compare(cs: Seq<Card>, t: FullHand, b: FullHand, r: u8)
    requires
        5 <= cs.len(),
        cs.no_duplicates(),
        drawn_from(t, cs),
        2 <= r <= 14,
        count_rank(cs, r) == 3,
        forall|q: u8| 2 <= q <= 14 && q != r ==> count_rank(cs, q) <= 1,
        t.spec_rank().strength() <= HandRank::ThreeOfAKind.strength(),
        kickers(cs, r).len() >= 2,
        b.0.rank() == r && b.1.rank() == r && b.2.rank() == r,
        b.3 == kickers(cs, r)[0],
        b.4 == kickers(cs, r)[1],
        b.3.rank() > b.4.rank(),
        b.3.rank() != r && b.4.rank() != r,
    ensures
        b.spec_compare(t) != Winner::Hand2,
{
    let rest = kickers(cs, r);
    lemma_kickers(cs, r);
    lemma_trio_groups(b);
    lemma_rank_shape(b);
    lemma_rank_shape(t);
    if t.spec_rank().strength() == b.spec_rank().strength() {
        lemma_lead_group(t, cs, r, 3);
        lemma_kicker_at(t, cs, rest, 1, 1, r as int, 0);
        lemma_kicker_at(t, cs, rest, 1, 2, r as int, 0);
        lemma_groups_not_lower(b, t);
    }
    lemma_compare_not_lower(b, t);
}

/// Three of a kind: where no rank comes four times among the cards and no
/// rank comes three times beside a rank that comes twice, three of a kind
/// are found if a rank comes three times, and they are no lower, with the
/// two highest other cards, than any five of the cards that make no better
/// than three of a kind.
pub proof fn lemma_trio(cs: Seq<Card>, t: FullHand)
    requires
        5 <= cs.len(),
        cs.no_duplicates(),
        drawn_from(t, cs),
        forall|r: u8| 2 <= r <= 14 ==> count_rank(cs, r) <= 3,
        forall|a: u8, b: u8|
            2 <= a <= 14 && 2 <= b <= 14 && a != b ==> !(count_rank(cs, a) >= 3 && count_rank(cs, b) >= 2),
        t.spec_rank().strength() <= HandRank::ThreeOfAKind.strength(),
    ensures
        spec_three_of_a_kind(cs) is None ==> (forall|r: u8| 2 <= r <= 14 ==> count_rank(cs, r) <= 2)
            && t.spec_rank().strength() <= HandRank::TwoPair.strength(),
        spec_three_of_a_kind(cs) matches Some(b) ==> drawn_from(b, cs) && b.spec_compare(t) != Winner::Hand2,
{
    let r = top_rank_with(cs, 3, true, 2, 0, 14);
    lemma_top_rank(cs, 3, true, 2, 0, 14);
    if r == 0 {
        assert forall|q: u8| 2 <= q <= 14 implies count_rank(cs, q) <= 2 by {
            if count_rank(cs, q) == 3 {
                lemma_kickers(cs, q);
                assert(qualifies(cs, q, 3, true, 2));
            }
        }
        lemma_rank_shape(t);
        lemma_most_card(t);
        lemma_hand_counts(t, cs, most_card(t).rank() as u8);
    } else {
        let b = lemma_trio_hand(cs, r);
        assert(spec_three_of_a_kind(cs) == Some(b));
        lemma_trio_compare(cs, t, b, r);
    }
}

/// The groups of a hand of four of one rank and a kicker.
pub proof fn lemma_four_groups(b: FullHand)
    requires
        b.0.rank() == b.1.rank(),
        b.0.rank() == b.2.rank(),
        b.0.rank() == b.3.rank(),
        b.4.rank() != b.0.rank(),
    ensures
        group_weight(b, 0) == 64 + b.0.rank(),
        group_weight(b, 1) == 16 + b.4.rank(),
        group_weight(b, 2) == 0,
        group_weight(b, 3) == 0,
        group_weight(b, 4) == 0,
        group_rank(b, 0) == b.0.rank(),
        group_rank(b, 1) == b.4.rank(),
        b.distinct_ranks() == 2,
        b.top_count() == 4,
{
    reveal(group_weight);
    lemma_card_weight(b, b.0);
    lemma_card_weight(b, b.4);
    lemma_weight_parts(4, b.0.rank());
    assert(b.count_of(b.0.rank()) == 4);
    assert(b.count_of(b.4.rank()) == 1);
    assert(b.next_weight(100) == 64 + b.0.rank());
    assert(group_weight(b, 0) == 64 + b.0.rank());
    assert(b.next_weight(64 + b.0.rank()) == 16 + b.4.rank());
    assert(group_weight(b, 1) == 16 + b.4.rank());
    assert(b.next_weight(16 + b.4.rank()) == 0);
    assert(group_weight(b, 2) == 0);
    assert(group_weight(b, 3) == 0);
    assert(group_weight(b, 4) == 0);
}

/// The hand that the search for four of a kind puts together.
proof fn lemma_four_hand(cs: Seq<Card>, r: u8) -> (b: FullHand)
    requires
        5 <= cs.len(),
        cs.no_duplicates(),
        2 <= r <= 14,
        count_rank(cs, r) == 4,
    ensures
        b == FullHand(
            select(cs, CardFilter::Rank(r))[0],
            select(cs, CardFilter::Rank(r))[1],
            select(cs, CardFilter::Rank(r))[2],
            select(cs, CardFilter::Rank(r))[3],
            kickers(cs, r)[0],
        ),
        kickers(cs, r).len() >= 1,
        drawn_from(b, cs),
        b.0.rank() == r && b.1.rank() == r && b.2.rank() == r && b.3.rank() == r,
        b.4.rank() != r,
{
    let four = select(cs, CardFilter::Rank(r));
    let rest = kickers(cs, r);
    lemma_kickers(cs, r);
    lemma_select_distinct(cs, CardFilter::Rank(r));
    lemma_select_members(cs, CardFilter::Rank(r));
    let b = FullHand(four[0], four[1], four[2], four[3], rest[0]);
    assert(cs.contains(four[0]) && cs.contains(four[1]) && cs.contains(four[2]) && cs.contains(four[3]));
    assert(four[0] != four[1] && four[0] != four[2] && four[0] != four[3] && four[1] != four[2] && four[1] != four[3]
        && four[2] != four[3]);
    assert(cs.contains(rest[0]));
    b
}

/// The comparison of the four of a kind that were found with five of the
/// cards.
proof fn lemma_four_compare(cs: Seq<Card>, t: FullHand, b: FullHand, r: u8)
    requires
        5 <= cs.len(),
        cs.no_duplicates(),
        drawn_from(t, cs),
        2 <= r <= 14,
        count_rank(cs, r) == 4,
        forall|q: u8| 2 <= q <= 14 && q != r ==> count_rank(cs, q) <= 3,
        t.spec_rank().strength() <= HandRank::FourOfAKind.strength(),
        kickers(cs, r).len() >= 1,
        b.0.rank() == r && b.1.rank() == r && b.2.rank() == r && b.3.rank() == r,
        b.4 == kickers(cs, r)[0],
        b.4.rank() != r,
    ensures
        b.spec_compare(t) != Winner::Hand2,
{
    let rest = kickers(cs, r);
    lemma_kickers(cs, r);
    lemma_four_groups(b);
    lemma_rank_shape(b);
    lemma_rank_shape(t);
    if t.spec_rank().strength() == b.spec_rank().strength() {
        lemma_lead_group(t, cs, r, 4);
        lemma_top_kicker(t, cs, rest, 1, r as int, 0);
        lemma_groups_not_lower(b, t);
    }
    lemma_compare_not_lower(b, t);
}

/// Four of a kind: among seven cards at most, four of a kind are found if
/// a rank comes four times, and they are no lower, with the highest other
/// card, than any five of the cards that make no better than four of a
/// kind.
pub proof fn lemma_four(cs: Seq<Card>, t: FullHand)
    requires
        5 <= cs.len() <= 7,
        cs.no_duplicates(),
        drawn_from(t, cs),
        t.spec_rank().strength() <= HandRank::FourOfAKind.strength(),
    ensures
        spec_four_of_a_kind(cs) is None ==> (forall|r: u8| 2 <= r <= 14 ==> count_rank(cs, r) <= 3)
            && t.spec_rank().strength() <= HandRank::FullHouse.strength(),
        spec_four_of_a_kind(cs) matches Some(b) ==> drawn_from(b, cs) && b.spec_compare(t) != Winner::Hand2,
{
    let r = top_rank_with(cs, 4, true, 0, 0, 14);
    lemma_top_rank(cs, 4, true, 0, 0, 14);
    assert forall|q: u8| 2 <= q <= 14 implies count_rank(cs, q) <= 4 by {
        lemma_count_at_most_four(cs, q);
    }
    if r == 0 {
        assert forall|q: u8| 2 <= q <= 14 implies count_rank(cs, q) <= 3 by {
            if count_rank(cs, q) == 4 {
                assert(qualifies(cs, q, 4, true, 0));
            }
        }
        lemma_rank_shape(t);
        lemma_most_card(t);
        lemma_hand_counts(t, cs, most_card(t).rank() as u8);
    } else {
        let b = lemma_four_hand(cs, r);
        assert(spec_four_of_a_kind(cs) == Some(b));
        assert forall|q: u8| 2 <= q <= 14 && q != r implies count_rank(cs, q) <= 3 by {
            lemma_others(cs, r, q);
        }
        lemma_four_compare(cs, t, b, r);
    }
}

/// The rank of the three cards of the full house that the search from
/// `from` down finds; 0 where it finds none.
pub open spec fn full_house_trio(cs: Seq<Card>, from: u8) -> u8
    decreases from,
{
    if from < 2 {
        0
    } else if count_rank(cs, from) >= 3 && top_rank_with(cs, 2, false, 0, from, 14) > 0 {
        from
    } else {
        full_house_trio(cs, (from - 1) as u8)
    }
}

/// What the search for a full house finds.
pub proof fn lemma_full_house_from(cs: Seq<Card>, from: u8)
    requires
        from <= 14,
    ensures
        ({
            let tr = full_house_trio(cs, from);
            let p = top_rank_with(cs, 2, false, 0, tr, 14);
            &&& tr == 0 <==> full_house_from(cs, from) is None
            &&& tr > 0 ==> 2 <= tr <= from && count_rank(cs, tr) >= 3 && p > 0 && full_house_from(cs, from) == Some(
                FullHand(
                    select(cs, CardFilter::Rank(tr))[0],
                    select(cs, CardFilter::Rank(tr))[1],
                    select(cs, CardFilter::Rank(tr))[2],
                    select(cs, CardFilter::Rank(p))[0],
                    select(cs, CardFilter::Rank(p))[1],
                ),
            )
            &&& forall|a: u8|
                tr < a <= from && 2 <= a ==> !(count_rank(cs, a) >= 3 && #[trigger] top_rank_with(cs, 2, false, 0, a, 14)
                    > 0)
        }),
    decreases from,
{
    if from >= 2 {
        lemma_full_house_from(cs, (from - 1) as u8);
    }
}

/// A card of the hand of another rank than `r`.
pub open spec fn other_card(h: FullHand, r: int) -> Card {
    if h.0.rank() != r {
        h.0
    } else if h.1.rank() != r {
        h.1
    } else if h.2.rank() != r {
        h.2
    } else if h.3.rank() != r {
        h.3
    } else {
        h.4
    }
}

/// The groups of a hand of three of one rank and two of another.
pub proof fn lemma_full_house_groups(b: FullHand)
    requires
        b.0.rank() == b.1.rank(),
        b.0.rank() == b.2.rank(),
        b.3.rank() == b.4.rank(),
        b.3.rank() != b.0.rank(),
    ensures
        group_weight(b, 0) == 48 + b.0.rank(),
        group_weight(b, 1) == 32 + b.3.rank(),
        group_weight(b, 2) == 0,
        group_weight(b, 3) == 0,
        group_weight(b, 4) == 0,
        group_rank(b, 0) == b.0.rank(),
        group_rank(b, 1) == b.3.rank(),
        b.distinct_ranks() == 2,
        b.top_count() == 3,
{
    reveal(group_weight);
    lemma_card_weight(b, b.0);
    lemma_card_weight(b, b.3);
    lemma_weight_parts(3, b.0.rank());
    lemma_weight_parts(2, b.3.rank());
    assert(b.count_of(b.0.rank()) == 3);
    assert(b.count_of(b.3.rank()) == 2);
    assert(b.next_weight(100) == 48 + b.0.rank());
    assert(group_weight(b, 0) == 48 + b.0.rank());
    assert(b.next_weight(48 + b.0.rank()) == 32 + b.3.rank());
    assert(group_weight(b, 1) == 32 + b.3.rank());
    assert(b.next_weight(32 + b.3.rank()) == 0);
    assert(group_weight(b, 2) == 0);
    assert(group_weight(b, 3) == 0);
    assert(group_weight(b, 4) == 0);
}

/// The two groups of a hand that is three of one rank and two of another.
proof fn lemma_full_house_lead(t: FullHand, cs: Seq<Card>)
    requires
        drawn_from(t, cs),
        t.distinct_ranks() == 2,
        t.top_count() == 3,
    ensures
        ({
            let m = most_card(t);
            let o = other_card(t, m.rank());
            &&& group_weight(t, 0) == 48 + m.rank()
            &&& group_weight(t, 1) == 32 + o.rank()
            &&& group_rank(t, 0) == m.rank()
            &&& group_rank(t, 1) == o.rank()
            &&& count_rank(cs, m.rank() as u8) >= 3
            &&& count_rank(cs, o.rank() as u8) >= 2
            &&& m.rank() != o.rank()
            &&& 2 <= m.rank() <= 14
            &&& 2 <= o.rank() <= 14
        }),
{
    reveal(group_weight);
    lemma_most_card(t);
    let m = most_card(t);
    let o = other_card(t, m.rank());
    assert(t.count_of(m.rank()) == 3);
    assert(o.rank() != m.rank());
    assert(t.count_of(o.rank()) == 2);
    lemma_hand_counts(t, cs, m.rank() as u8);
    lemma_hand_counts(t, cs, o.rank() as u8);
    lemma_card_weight(t, t.0);
    lemma_card_weight(t, t.1);
    lemma_card_weight(t, t.2);
    lemma_card_weight(t, t.3);
    lemma_card_weight(t, t.4);
    lemma_weight_parts(3, m.rank());
    lemma_weight_parts(2, o.rank());
    assert(t.weight(m.rank()) == 48 + m.rank());
    assert(t.weight(o.rank()) == 32 + o.rank());
    lemma_next_weight(t, 100);
    assert(t.next_weight(100) == 48 + m.rank());
    assert(group_weight(t, 0) == 48 + m.rank());
    lemma_next_weight(t, 48 + m.rank());
    assert(t.next_weight(48 + m.rank()) == 32 + o.rank());
    assert(group_weight(t, 1) == 32 + o.rank());
}

/// The hand that the search for a full house puts together.
proof fn lemma_full_house_hand(cs: Seq<Card>, tr: u8, p: u8) -> (b: FullHand)
    requires
        cs.no_duplicates(),
        2 <= tr <= 14,
        2 <= p <= 14,
        tr != p,
        count_rank(cs, tr) >= 3,
        count_rank(cs, p) >= 2,
    ensures
        b == FullHand(
            select(cs, CardFilter::Rank(tr))[0],
            select(cs, CardFilter::Rank(tr))[1],
            select(cs, CardFilter::Rank(tr))[2],
            select(cs, CardFilter::Rank(p))[0],
            select(cs, CardFilter::Rank(p))[1],
        ),
        drawn_from(b, cs),
        b.0.rank() == tr && b.1.rank() == tr && b.2.rank() == tr,
        b.3.rank() == p && b.4.rank() == p,
{
    let three = select(cs, CardFilter::Rank(tr));
    let two = select(cs, CardFilter::Rank(p));
    lemma_select_distinct(cs, CardFilter::Rank(tr));
    lemma_select_members(cs, CardFilter::Rank(tr));
    lemma_select_distinct(cs, CardFilter::Rank(p));
    lemma_select_members(cs, CardFilter::Rank(p));
    let b = FullHand(three[0], three[1], three[2], two[0], two[1]);
    assert(cs.contains(three[0]) && cs.contains(three[1]) && cs.contains(three[2]));
    assert(three[0] != three[1] && three[0] != three[2] && three[1] != three[2]);
    assert(cs.contains(two[0]) && cs.contains(two[1]) && two[0] != two[1]);
    b
}

/// The comparison of the full house that was found with five of the cards.
proof fn lemma_full_house_compare(cs: Seq<Card>, t: FullHand, b: FullHand, tr: u8, p: u8)
    requires
        cs.no_duplicates(),
        drawn_from(t, cs),
        2 <= tr <= 14,
        2 <= p <= 14,
        tr != p,
        forall|a: u8, c: u8|
            2 <= a <= 14 && 2 <= c <= 14 && a != c && count_rank(cs, a) >= 3 && count_rank(cs, c) >= 2 ==> a <= tr,
        forall|c: u8| 2 <= c <= 14 && c != tr && count_rank(cs, c) >= 2 ==> c <= p,
        t.spec_rank().strength() <= HandRank::FullHouse.strength(),
        b.0.rank() == tr && b.1.rank() == tr && b.2.rank() == tr,
        b.3.rank() == p && b.4.rank() == p,
    ensures
        b.spec_compare(t) != Winner::Hand2,
{
    lemma_full_house_groups(b);
    lemma_rank_shape(b);
    lemma_rank_shape(t);
    if t.spec_rank().strength() == b.spec_rank().strength() {
        lemma_full_house_lead(t, cs);
        let m = most_card(t);
        let o = other_card(t, m.rank());
        assert(m.rank() as u8 <= tr);
        if m.rank() == tr {
            assert(o.rank() as u8 <= p);
        }
        lemma_groups_not_lower(b, t);
    }
    lemma_compare_not_lower(b, t);
}

/// The full house: where no rank comes four times among the cards, a full
/// house is found if a rank comes three times beside a rank that comes
/// twice, and it is no lower than any five of the cards that make no
/// better than a full house.
pub proof fn lemma_full_house(cs: Seq<Card>, t: FullHand)
    requires
        5 <= cs.len(),
        cs.no_duplicates(),
        drawn_from(t, cs),
        t.spec_rank().strength() <= HandRank::FullHouse.strength(),
    ensures
        spec_full_house(cs) is None ==> (forall|a: u8, b: u8|
            2 <= a <= 14 && 2 <= b <= 14 && a != b ==> !(count_rank(cs, a) >= 3 && count_rank(cs, b) >= 2))
            && t.spec_rank().strength() <= HandRank::Flush.strength(),
        spec_full_house(cs) matches Some(b) ==> drawn_from(b, cs) && b.spec_compare(t) != Winner::Hand2,
{
    let tr = full_house_trio(cs, 14);
    lemma_full_house_from(cs, 14);
    assert forall|a: u8, c: u8|
        2 <= a <= 14 && 2 <= c <= 14 && a != c && count_rank(cs, a) >= 3 && count_rank(cs, c) >= 2 implies a <= tr by {
        lemma_top_rank(cs, 2, false, 0, a, 14);
        assert(qualifies(cs, c, 2, false, 0));
        assert(top_rank_with(cs, 2, false, 0, a, 14) > 0);
    }
    if tr == 0 {
        lemma_rank_shape(t);
        if t.spec_rank() == HandRank::FullHouse {
            lemma_full_house_lead(t, cs);
        }
    } else {
        let p = top_rank_with(cs, 2, false, 0, tr, 14);
        lemma_top_rank(cs, 2, false, 0, tr, 14);
        let b = lemma_full_house_hand(cs, tr, p);
        assert(spec_full_house(cs) == Some(b));
        assert forall|c: u8| 2 <= c <= 14 && c != tr && count_rank(cs, c) >= 2 implies c <= p by {
            assert(qualifies(cs, c, 2, false, 0));
        }
        lemma_full_house_compare(cs, t, b, tr, p);
    }
}

/// The card of the hand with the rank `x`, the first where there are
/// several.
pub open spec fn card_of_rank(h: FullHand, x: int) -> Card {
    if h.0.rank() == x {
        h.0
    } else if h.1.rank() == x {
        h.1
    } else if h.2.rank() == x {
        h.2
    } else if h.3.rank() == x {
        h.3
    } else {
        h.4
    }
}

/// A hand of five ranks in a row holds each rank from its highest down to
/// its lowest once.
pub proof fn lemma_run_ranks(h: FullHand)
    requires
        h.is_run(),
    ensures
        6 <= h.top_rank() <= 14,
        h.count_of(h.top_rank()) == 1,
        h.count_of(h.top_rank() - 1) == 1,
        h.count_of(h.top_rank() - 2) == 1,
        h.count_of(h.top_rank() - 3) == 1,
        h.count_of(h.top_rank() - 4) == 1,
        card_of_rank(h, h.top_rank()).rank() == h.top_rank(),
        card_of_rank(h, h.top_rank() - 1).rank() == h.top_rank() - 1,
        card_of_rank(h, h.top_rank() - 2).rank() == h.top_rank() - 2,
        card_of_rank(h, h.top_rank() - 3).rank() == h.top_rank() - 3,
        card_of_rank(h, h.top_rank() - 4).rank() == h.top_rank() - 4,
        !h.spec_is_wheel(),
{
}

/// The groups of a hand of five ranks in a row are its ranks from the
/// highest down.
pub proof fn lemma_run_groups(h: FullHand)
    requires
        h.is_run(),
    ensures
        group_weight(h, 0) == 16 + h.top_rank(),
        group_weight(h, 1) == 16 + h.top_rank() - 1,
        group_weight(h, 2) == 16 + h.top_rank() - 2,
        group_weight(h, 3) == 16 + h.top_rank() - 3,
        group_weight(h, 4) == 16 + h.top_rank() - 4,
        group_rank(h, 0) == h.top_rank(),
        group_rank(h, 1) == h.top_rank() - 1,
        group_rank(h, 2) == h.top_rank() - 2,
        group_rank(h, 3) == h.top_rank() - 3,
        group_rank(h, 4) == h.top_rank() - 4,
{
    reveal(group_weight);
    lemma_run_ranks(h);
    let top = h.top_rank();
    lemma_card_weight(h, h.0);
    lemma_card_weight(h, h.1);
    lemma_card_weight(h, h.2);
    lemma_card_weight(h, h.3);
    lemma_card_weight(h, h.4);
    lemma_singles(h);
    lemma_rank_step(h, 100, top);
    assert(group_weight(h, 0) == 16 + top);
    lemma_rank_step(h, 16 + top, top - 1);
    assert(group_weight(h, 1) == 16 + top - 1);
    lemma_rank_step(h, 16 + top - 1, top - 2);
    assert(group_weight(h, 2) == 16 + top - 2);
    lemma_rank_step(h, 16 + top - 2, top - 3);
    assert(group_weight(h, 3) == 16 + top - 3);
    lemma_rank_step(h, 16 + top - 3, top - 4);
    assert(group_weight(h, 4) == 16 + top - 4);
    lemma_weight_parts(1, top);
    lemma_weight_parts(1, top - 1);
    lemma_weight_parts(1, top - 2);
    lemma_weight_parts(1, top - 3);
    lemma_weight_parts(1, top - 4);
}

/// In a hand of single cards, the next weight below a bound is that of
/// the rank `x` where the hand holds `x` and no rank between `x` and the
/// bound.
proof fn lemma_rank_step(h: FullHand, bound: int, x: int)
    requires
        h.distinct_ranks() == 5,
        16 + x < bound,
        h.count_of(x) == 1,
        h.0.rank() <= x || 16 + h.0.rank() >= bound,
        h.1.rank() <= x || 16 + h.1.rank() >= bound,
        h.2.rank() <= x || 16 + h.2.rank() >= bound,
        h.3.rank() <= x || 16 + h.3.rank() >= bound,
        h.4.rank() <= x || 16 + h.4.rank() >= bound,
    ensures
        h.next_weight(bound) == 16 + x,
{
    lemma_singles(h);
    lemma_next_weight(h, bound);
}

/// The groups of the wheel: the Ace, then Five down to Two.
pub proof fn lemma_wheel_groups(h: FullHand)
    requires
        h.spec_is_wheel(),
    ensures
        group_rank(h, 0) == 14,
        group_rank(h, 1) == 5,
        group_rank(h, 2) == 4,
        group_rank(h, 3) == 3,
        group_rank(h, 4) == 2,
        group_weight(h, 0) == 30,
        group_weight(h, 4) == 18,
        h.distinct_ranks() == 5,
        !h.is_run(),
{
    reveal(group_weight);
    assert(h.distinct_ranks() == 5);
    lemma_singles(h);
    lemma_rank_step(h, 100, 14);
    assert(group_weight(h, 0) == 30);
    lemma_rank_step(h, 30, 5);
    assert(group_weight(h, 1) == 21);
    lemma_rank_step(h, 21, 4);
    assert(group_weight(h, 2) == 20);
    lemma_rank_step(h, 20, 3);
    assert(group_weight(h, 3) == 19);
    lemma_rank_step(h, 19, 2);
    assert(group_weight(h, 4) == 18);
}

/// What the search for the highest run of ranks finds.
pub proof fn lemma_run_top(cs: Seq<Card>, from: u8)
    requires
        from <= 14,
    ensures
        ({
            let top = run_top(cs, from);
            &&& top == 0 || (6 <= top <= from && has_run(cs, top))
            &&& forall|r: u8| top < r <= from && 6 <= r ==> !#[trigger] has_run(cs, r)
        }),
    decreases from,
{
    if from >= 6 {
        lemma_run_top(cs, (from - 1) as u8);
    }
}

/// The first card of a rank that the cards hold is one of the cards and
/// has that rank.
pub proof fn lemma_first_of_rank(cs: Seq<Card>, r: u8)
    requires
        count_rank(cs, r) > 0,
    ensures
        cs.contains(first_of_rank(cs, r)),
        first_of_rank(cs, r).rank() == r,
{
    lemma_select_members(cs, CardFilter::Rank(r));
}

/// A hand of five ranks in a row from cards `cs` shows that `cs` holds
/// those ranks.
proof fn lemma_run_in(cs: Seq<Card>, t: FullHand)
    requires
        drawn_from(t, cs),
        t.is_run(),
    ensures
        6 <= t.top_rank() <= 14,
        has_run(cs, t.top_rank() as u8),
{
    lemma_run_ranks(t);
    let top = t.top_rank();
    lemma_hand_counts(t, cs, top as u8);
    lemma_hand_counts(t, cs, (top - 1) as u8);
    lemma_hand_counts(t, cs, (top - 2) as u8);
    lemma_hand_counts(t, cs, (top - 3) as u8);
    lemma_hand_counts(t, cs, (top - 4) as u8);
}

/// A wheel from cards `cs` shows that `cs` holds its ranks.
proof fn lemma_wheel_in(cs: Seq<Card>, t: FullHand)
    requires
        drawn_from(t, cs),
        t.spec_is_wheel(),
    ensures
        has_wheel(cs),
{
    lemma_hand_counts(t, cs, 14);
    lemma_hand_counts(t, cs, 2);
    lemma_hand_counts(t, cs, 3);
    lemma_hand_counts(t, cs, 4);
    lemma_hand_counts(t, cs, 5);
}

/// The run that the search for a straight puts together.
proof fn lemma_run_hand(cs: Seq<Card>, top: u8) -> (b: FullHand)
    requires
        6 <= top <= 14,
        has_run(cs, top),
    ensures
        b == FullHand(
            first_of_rank(cs, top),
            first_of_rank(cs, (top - 1) as u8),
            first_of_rank(cs, (top - 2) as u8),
            first_of_rank(cs, (top - 3) as u8),
            first_of_rank(cs, (top - 4) as u8),
        ),
        drawn_from(b, cs),
        b.0.rank() == top,
        b.1.rank() == top - 1,
        b.2.rank() == top - 2,
        b.3.rank() == top - 3,
        b.4.rank() == top - 4,
        b.is_run(),
        b.top_rank() == top,
{
    lemma_first_of_rank(cs, top);
    lemma_first_of_rank(cs, (top - 1) as u8);
    lemma_first_of_rank(cs, (top - 2) as u8);
    lemma_first_of_rank(cs, (top - 3) as u8);
    lemma_first_of_rank(cs, (top - 4) as u8);
    FullHand(
        first_of_rank(cs, top),
        first_of_rank(cs, (top - 1) as u8),
        first_of_rank(cs, (top - 2) as u8),
        first_of_rank(cs, (top - 3) as u8),
        first_of_rank(cs, (top - 4) as u8),
    )
}

/// The wheel that the search for a straight puts together.
proof fn lemma_wheel_hand(cs: Seq<Card>) -> (b: FullHand)
    requires
        has_wheel(cs),
    ensures
        b == FullHand(
            first_of_rank(cs, 5),
            first_of_rank(cs, 4),
            first_of_rank(cs, 3),
            first_of_rank(cs, 2),
            first_of_rank(cs, 14),
        ),
        drawn_from(b, cs),
        b.spec_is_wheel(),
{
    lemma_first_of_rank(cs, 5);
    lemma_first_of_rank(cs, 4);
    lemma_first_of_rank(cs, 3);
    lemma_first_of_rank(cs, 2);
    lemma_first_of_rank(cs, 14);
    FullHand(first_of_rank(cs, 5), first_of_rank(cs, 4), first_of_rank(cs, 3), first_of_rank(cs, 2), first_of_rank(cs, 14))
}


/// Groups that fall by one from `tb` are no lower than groups that fall
/// by one from `tt`, where `tb` is no lower than `tt`.
proof fn lemma_falling_groups(b: FullHand, t: FullHand, tb: int, tt: int)
    requires
        tb >= tt,
        group_rank(b, 0) == tb && group_rank(b, 1) == tb - 1 && group_rank(b, 2) == tb - 2 && group_rank(b, 3) == tb
            - 3 && group_rank(b, 4) == tb - 4,
        group_rank(t, 0) == tt && group_rank(t, 1) == tt - 1 && group_rank(t, 2) == tt - 2 && group_rank(t, 3) == tt
            - 3 && group_rank(t, 4) == tt - 4,
    ensures
        prefix_compare(b.ranked_groups(), t.ranked_groups()) != Winner::Hand2,
{
    lemma_groups_not_lower(b, t);
}

/// Equal groups do not lose.
proof fn lemma_equal_groups(b: FullHand, t: FullHand)
    requires
        group_rank(b, 0) == group_rank(t, 0),
        group_rank(b, 1) == group_rank(t, 1),
        group_rank(b, 2) == group_rank(t, 2),
        group_rank(b, 3) == group_rank(t, 3),
        group_rank(b, 4) == group_rank(t, 4),
    ensures
        prefix_compare(b.ranked_groups(), t.ranked_groups()) != Winner::Hand2,
{
    lemma_groups_not_lower(b, t);
}

/// The groups of a run are no lower than those of a run that is no
/// higher.
proof fn lemma_runs_compare(b: FullHand, t: FullHand)
    requires
        b.is_run(),
        t.is_run(),
        b.top_rank() >= t.top_rank(),
    ensures
        prefix_compare(b.ranked_groups(), t.ranked_groups()) != Winner::Hand2,
{
    lemma_run_groups(b);
    lemma_run_groups(t);
    lemma_falling_groups(b, t, b.top_rank(), t.top_rank());
}

/// The groups of two wheels are equal.
proof fn lemma_wheels_compare(b: FullHand, t: FullHand)
    requires
        b.spec_is_wheel(),
        t.spec_is_wheel(),
    ensures
        prefix_compare(b.ranked_groups(), t.ranked_groups()) != Winner::Hand2,
{
    lemma_wheel_groups(b);
    lemma_wheel_groups(t);
    lemma_equal_groups(b, t);
}

/// What decides between two straights of one category: the wheel loses to
/// a run, and else the groups decide.
proof fn lemma_straights_decide(b: FullHand, t: FullHand, b_wheel: bool, t_wheel: bool)
    requires
        b_wheel == b.spec_is_wheel(),
        t_wheel == t.spec_is_wheel(),
        b.spec_rank().strength() == t.spec_rank().strength(),
        b.spec_rank() == HandRank::Straight || b.spec_rank() == HandRank::StraightFlush || (!b_wheel && !t_wheel),
        b_wheel ==> t_wheel,
        b_wheel == t_wheel ==> prefix_compare(b.ranked_groups(), t.ranked_groups()) != Winner::Hand2,
    ensures
        b.spec_compare(t) != Winner::Hand2,
{
}

/// A run is no lower than any straight of a run that is no higher, and
/// than the wheel; the wheel is no lower than the wheel.
proof fn lemma_straights_compare(b: FullHand, t: FullHand)
    requires
        b.is_straight(),
        t.is_straight(),
        b.spec_rank().strength() == t.spec_rank().strength(),
        b.is_run() && t.is_run() ==> b.top_rank() >= t.top_rank(),
        b.spec_is_wheel() ==> t.spec_is_wheel(),
    ensures
        b.spec_compare(t) != Winner::Hand2,
{
    lemma_straight_category(b);
    lemma_straight_category(t);
    lemma_run_or_wheel(b);
    lemma_run_or_wheel(t);
    let b_wheel = b.spec_is_wheel();
    let t_wheel = t.spec_is_wheel();
    if b_wheel && t_wheel {
        lemma_wheels_compare(b, t);
    } else if !b_wheel && !t_wheel {
        lemma_runs_compare(b, t);
    }
    lemma_straights_decide(b, t, b_wheel, t_wheel);
}

/// A straight is either five ranks in a row or the wheel.
proof fn lemma_run_or_wheel(h: FullHand)
    requires
        h.is_straight(),
    ensures
        h.is_run() != h.spec_is_wheel(),
{
    if h.spec_is_wheel() {
        lemma_wheel_groups(h);
    }
}

/// A straight is a straight, a straight flush or a royal flush, and the
/// wheel is no royal flush.
proof fn lemma_straight_category(h: FullHand)
    requires
        h.is_straight(),
    ensures
        h.spec_rank() == HandRank::Straight || h.spec_rank() == HandRank::StraightFlush || h.spec_rank()
            == HandRank::RoyalFlush,
        h.spec_is_wheel() ==> h.spec_rank() != HandRank::RoyalFlush,
{
    reveal(FullHand::spec_rank);
    if h.spec_is_wheel() {
        lemma_wheel_groups(h);
    }
    lemma_most_card(h);
}

/// The straight: a straight is found if the cards hold five ranks in a row
/// or the wheel, and it is no lower than any five of the cards that make
/// no better than a straight.
pub proof fn lemma_straight(cs: Seq<Card>, t: FullHand)
    requires
        5 <= cs.len(),
        cs.no_duplicates(),
        drawn_from(t, cs),
        t.spec_rank().strength() <= HandRank::Straight.strength(),
    ensures
        spec_straight(cs) is None ==> t.spec_rank().strength() <= HandRank::ThreeOfAKind.strength(),
        spec_straight(cs) matches Some(b) ==> drawn_from(b, cs) && b.spec_compare(t) != Winner::Hand2,
{
    let top = run_top(cs, 14);
    lemma_run_top(cs, 14);
    lemma_rank_shape(t);
    if t.is_run() {
        lemma_run_in(cs, t);
        assert(has_run(cs, t.top_rank() as u8));
    }
    if t.spec_is_wheel() {
        lemma_wheel_in(cs, t);
    }
    if top > 0 {
        let b = lemma_run_hand(cs, top);
        assert(spec_straight(cs) == Some(b));
        lemma_rank_shape(b);
        lemma_run_ranks(b);
        if t.spec_rank().strength() == b.spec_rank().strength() {
            if t.is_run() {
                assert(t.top_rank() as u8 <= top);
            }
            lemma_straights_compare(b, t);
        } else {
            lemma_compare_not_lower(b, t);
        }
    } else if has_wheel(cs) {
        let b = lemma_wheel_hand(cs);
        assert(spec_straight(cs) == Some(b));
        lemma_rank_shape(b);
        if t.spec_rank().strength() == b.spec_rank().strength() {
            lemma_straights_compare(b, t);
        } else {
            lemma_wheel_groups(b);
            lemma_compare_not_lower(b, t);
        }
    }
}

/// The cards of two suits are no more than all cards.
pub proof fn lemma_suit_split(s: Seq<Card>, a: CardSuit, b: CardSuit)
    requires
        a != b,
    ensures
        select(s, CardFilter::Suit(a)).len() + select(s, CardFilter::Suit(b)).len() <= s.len(),
    decreases s.len(),
{
    if s.len() > 0 {
        lemma_suit_split(s.drop_last(), a, b);
    }
}

/// The place in the standard order of the first suit, from place `i` on,
/// of which the cards hold five or more; 4 where there is none.
pub open spec fn flush_suit(cs: Seq<Card>, i: int) -> int
    decreases 4 - i,
{
    if i >= 4 || i < 0 {
        4
    } else if select(cs, CardFilter::Suit(suit_at(i))).len() >= 5 {
        i
    } else {
        flush_suit(cs, i + 1)
    }
}

/// What the search for a flush finds.
pub proof fn lemma_flush_from(cs: Seq<Card>, i: int)
    requires
        0 <= i <= 4,
    ensures
        ({
            let j = flush_suit(cs, i);
            let suited = sorted_desc(select(cs, CardFilter::Suit(suit_at(j))));
            &&& i <= j <= 4
            &&& j == 4 <==> flush_from(cs, i) is None
            &&& j < 4 ==> select(cs, CardFilter::Suit(suit_at(j))).len() >= 5 && flush_from(cs, i) == Some(
                FullHand(suited[0], suited[1], suited[2], suited[3], suited[4]),
            )
            &&& forall|k: int| i <= k < j ==> select(cs, CardFilter::Suit(#[trigger] suit_at(k))).len() < 5
        }),
    decreases 4 - i,
{
    if i < 4 {
        lemma_flush_from(cs, i + 1);
    }
}

/// A flush from cards `cs` shows that `cs` holds five cards of its suit.
proof fn lemma_flush_in(cs: Seq<Card>, t: FullHand)
    requires
        drawn_from(t, cs),
        t.is_flush(),
    ensures
        select(cs, CardFilter::Suit(t.0.1)).len() >= 5,
        select(cs, CardFilter::Suit(t.0.1)).contains(t.0),
        select(cs, CardFilter::Suit(t.0.1)).contains(t.1),
        select(cs, CardFilter::Suit(t.0.1)).contains(t.2),
        select(cs, CardFilter::Suit(t.0.1)).contains(t.3),
        select(cs, CardFilter::Suit(t.0.1)).contains(t.4),
        t.distinct_ranks() == 5,
{
    let f = CardFilter::Suit(t.0.1);
    lemma_select_holds(cs, f, t.0);
    lemma_select_holds(cs, f, t.1);
    lemma_select_holds(cs, f, t.2);
    lemma_select_holds(cs, f, t.3);
    lemma_select_holds(cs, f, t.4);
    let items = seq![t.0, t.1, t.2, t.3, t.4];
    assert(items[0] == t.0 && items[1] == t.1 && items[2] == t.2 && items[3] == t.3 && items[4] == t.4);
    lemma_room_for(select(cs, f), items);
    lemma_suited_ranks(t.0, t.1);
    lemma_suited_ranks(t.0, t.2);
    lemma_suited_ranks(t.0, t.3);
    lemma_suited_ranks(t.0, t.4);
    lemma_suited_ranks(t.1, t.2);
    lemma_suited_ranks(t.1, t.3);
    lemma_suited_ranks(t.1, t.4);
    lemma_suited_ranks(t.2, t.3);
    lemma_suited_ranks(t.2, t.4);
    lemma_suited_ranks(t.3, t.4);
}

/// Two different cards of one suit have different ranks.
pub proof fn lemma_suited_ranks(a: Card, b: Card)
    requires
        a != b,
        a.1 == b.1,
    ensures
        a.rank() != b.rank(),
{
    if a.rank() == b.rank() {
        lemma_rank_names(a, b);
    }
}

/// The cards of one suit in descending order of rank: they fall strictly.
proof fn lemma_suited_pool(cs: Seq<Card>, s: CardSuit)
    requires
        cs.no_duplicates(),
    ensures
        ({
            let pool = sorted_desc(select(cs, CardFilter::Suit(s)));
            &&& pool.len() == select(cs, CardFilter::Suit(s)).len()
            &&& pool.no_duplicates()
            &&& forall|i: int| 0 <= i < pool.len() ==> cs.contains(#[trigger] pool[i]) && pool[i].1 == s
            &&& forall|i: int, j: int| 0 <= i < j < pool.len() ==> pool[i].rank() > pool[j].rank()
            &&& forall|c: Card| select(cs, CardFilter::Suit(s)).contains(c) ==> pool.contains(c)
        }),
{
    let suited = select(cs, CardFilter::Suit(s));
    let pool = sorted_desc(suited);
    lemma_select_distinct(cs, CardFilter::Suit(s));
    lemma_select_members(cs, CardFilter::Suit(s));
    lemma_sorted_desc_is_sorted(suited);
    assert forall|i: int| 0 <= i < pool.len() implies cs.contains(#[trigger] pool[i]) && pool[i].1 == s by {
        let c = pool[i];
        assert(suited.contains(c));
        let k = choose|k: int| 0 <= k < suited.len() && suited[k] == c;
        assert(cs.contains(suited[k]));
    }
    assert forall|i: int, j: int| 0 <= i < j < pool.len() implies pool[i].rank() > pool[j].rank() by {
        assert(pool[i].1 == s && pool[j].1 == s);
        lemma_suited_ranks(pool[i], pool[j]);
    }
}

/// The comparison of the flush that was found with a flush of the same
/// suit.
proof fn lemma_flush_compare(cs: Seq<Card>, t: FullHand, b: FullHand, s: CardSuit)
    requires
        cs.no_duplicates(),
        drawn_from(t, cs),
        t.is_flush(),
        t.0.1 == s,
        select(cs, CardFilter::Suit(s)).len() >= 5,
        b == FullHand(
            sorted_desc(select(cs, CardFilter::Suit(s)))[0],
            sorted_desc(select(cs, CardFilter::Suit(s)))[1],
            sorted_desc(select(cs, CardFilter::Suit(s)))[2],
            sorted_desc(select(cs, CardFilter::Suit(s)))[3],
            sorted_desc(select(cs, CardFilter::Suit(s)))[4],
        ),
    ensures
        prefix_compare(b.ranked_groups(), t.ranked_groups()) != Winner::Hand2,
{
    let pool = sorted_desc(select(cs, CardFilter::Suit(s)));
    lemma_suited_pool(cs, s);
    lemma_flush_in(cs, t);
    lemma_ordered_groups(b);
    lemma_single_at(t, pool, 0);
    lemma_single_at(t, pool, 1);
    lemma_single_at(t, pool, 2);
    lemma_single_at(t, pool, 3);
    lemma_single_at(t, pool, 4);
    lemma_groups_not_lower(b, t);
}

/// The flush: among seven cards at most, a flush is found if five cards
/// have one suit, and it is no lower than any five of the cards that make
/// no better than a flush.
pub proof fn lemma_flush(cs: Seq<Card>, t: FullHand)
    requires
        5 <= cs.len() <= 7,
        cs.no_duplicates(),
        drawn_from(t, cs),
        t.spec_rank().strength() <= HandRank::Flush.strength(),
    ensures
        spec_flush(cs) is None ==> t.spec_rank().strength() <= HandRank::Straight.strength(),
        spec_flush(cs) matches Some(b) ==> drawn_from(b, cs) && b.spec_compare(t) != Winner::Hand2,
{
    let j = flush_suit(cs, 0);
    lemma_flush_from(cs, 0);
    lemma_rank_shape(t);
    if t.is_flush() {
        lemma_flush_in(cs, t);
        assert(t.0.1 == suit_at(t.0.1.spec_code()));
        if j < 4 && suit_at(j) != t.0.1 {
            lemma_suit_split(cs, suit_at(j), t.0.1);
        }
    }
    if j < 4 {
        let s = suit_at(j);
        let pool = sorted_desc(select(cs, CardFilter::Suit(s)));
        lemma_suited_pool(cs, s);
        let b = FullHand(pool[0], pool[1], pool[2], pool[3], pool[4]);
        assert(spec_flush(cs) == Some(b));
        assert(drawn_from(b, cs));
        assert(b.is_flush());
        lemma_rank_shape(b);
        if t.spec_rank().strength() == b.spec_rank().strength() {
            if t.is_flush() {
                lemma_flush_compare(cs, t, b, s);
            }
        }
        lemma_compare_not_lower(b, t);
    }
}

/// What the search for the highest run in a suit finds.
pub proof fn lemma_suited_run_top(cs: Seq<Card>, s: CardSuit, from: u8)
    requires
        from <= 14,
    ensures
        ({
            let top = suited_run_top(cs, s, from);
            &&& top == 0 || (6 <= top <= from && has_suited_run(cs, s, top))
            &&& forall|r: u8| top < r <= from && 6 <= r ==> !#[trigger] has_suited_run(cs, s, r)
        }),
    decreases from,
{
    if from >= 6 {
        lemma_suited_run_top(cs, s, (from - 1) as u8);
    }
}

/// A card is the card of its rank and suit.
pub proof fn lemma_card_name(c: Card)
    ensures
        c == card_of(c.rank(), c.1),
        2 <= c.rank() <= 14,
{
}

/// The card of a rank and a suit has that rank and that suit.
pub proof fn lemma_card_of(v: int, s: CardSuit)
    requires
        2 <= v <= 14,
    ensures
        card_of(v, s).rank() == v,
        card_of(v, s).1 == s,
{
}

/// A hand of five cards of one suit with ranks in a row, from cards `cs`,
/// shows that `cs` holds that run in that suit.
proof fn lemma_suited_run_in(cs: Seq<Card>, t: FullHand)
    requires
        drawn_from(t, cs),
        t.is_flush(),
        t.is_run(),
    ensures
        6 <= t.top_rank() <= 14,
        has_suited_run(cs, t.0.1, t.top_rank() as u8),
{
    lemma_run_ranks(t);
    let top = t.top_rank();
    lemma_card_name(card_of_rank(t, top));
    lemma_card_name(card_of_rank(t, top - 1));
    lemma_card_name(card_of_rank(t, top - 2));
    lemma_card_name(card_of_rank(t, top - 3));
    lemma_card_name(card_of_rank(t, top - 4));
    assert(cs.contains(card_of_rank(t, top)));
    assert(cs.contains(card_of_rank(t, top - 1)));
    assert(cs.contains(card_of_rank(t, top - 2)));
    assert(cs.contains(card_of_rank(t, top - 3)));
    assert(cs.contains(card_of_rank(t, top - 4)));
}

/// A wheel of one suit from cards `cs` shows that `cs` holds the wheel in
/// that suit.
proof fn lemma_suited_wheel_in(cs: Seq<Card>, t: FullHand)
    requires
        drawn_from(t, cs),
        t.is_flush(),
        t.spec_is_wheel(),
    ensures
        has_suited_wheel(cs, t.0.1),
{
    lemma_card_name(card_of_rank(t, 14));
    lemma_card_name(card_of_rank(t, 2));
    lemma_card_name(card_of_rank(t, 3));
    lemma_card_name(card_of_rank(t, 4));
    lemma_card_name(card_of_rank(t, 5));
    assert(cs.contains(card_of_rank(t, 14)));
    assert(cs.contains(card_of_rank(t, 2)));
    assert(cs.contains(card_of_rank(t, 3)));
    assert(cs.contains(card_of_rank(t, 4)));
    assert(cs.contains(card_of_rank(t, 5)));
}

/// The run of one suit that the cards hold is a hand of the cards: a
/// flush of five ranks in a row.
proof fn lemma_suited_run_hand(cs: Seq<Card>, s: CardSuit, top: u8) -> (b: FullHand)
    requires
        6 <= top <= 14,
        has_suited_run(cs, s, top),
    ensures
        b == suited_run(s, top),
        drawn_from(b, cs),
        b.is_flush(),
        b.is_run(),
        b.top_rank() == top,
        b.0.1 == s,
{
    lemma_card_of(top as int, s);
    lemma_card_of(top - 1, s);
    lemma_card_of(top - 2, s);
    lemma_card_of(top - 3, s);
    lemma_card_of(top - 4, s);
    suited_run(s, top)
}

/// The wheel of one suit that the cards hold is a hand of the cards.
proof fn lemma_suited_wheel_hand(cs: Seq<Card>, s: CardSuit) -> (b: FullHand)
    requires
        has_suited_wheel(cs, s),
    ensures
        b == suited_wheel(s),
        drawn_from(b, cs),
        b.is_flush(),
        b.spec_is_wheel(),
        b.0.1 == s,
{
    lemma_card_of(14, s);
    lemma_card_of(2, s);
    lemma_card_of(3, s);
    lemma_card_of(4, s);
    lemma_card_of(5, s);
    suited_wheel(s)
}

/// The place of the first suit, from place `i` on, in which the cards hold
/// a run or the wheel; 4 where there is none.
pub open spec fn straight_flush_suit(cs: Seq<Card>, i: int) -> int
    decreases 4 - i,
{
    if i >= 4 || i < 0 {
        4
    } else if suited_run_top(cs, suit_at(i), 14) > 0 || has_suited_wheel(cs, suit_at(i)) {
        i
    } else {
        straight_flush_suit(cs, i + 1)
    }
}

/// What the search for a straight flush finds.
pub proof fn lemma_straight_flush_from(cs: Seq<Card>, i: int)
    requires
        0 <= i <= 4,
    ensures
        ({
            let j = straight_flush_suit(cs, i);
            let top = suited_run_top(cs, suit_at(j), 14);
            &&& i <= j <= 4
            &&& j == 4 <==> straight_flush_from(cs, i) is None
            &&& j < 4 && top > 0 ==> straight_flush_from(cs, i) == Some(suited_run(suit_at(j), top))
            &&& j < 4 && top == 0 ==> has_suited_wheel(cs, suit_at(j)) && straight_flush_from(cs, i) == Some(
                suited_wheel(suit_at(j)),
            )
            &&& forall|k: int|
                i <= k < j ==> suited_run_top(cs, #[trigger] suit_at(k), 14) == 0 && !has_suited_wheel(cs, suit_at(k))
        }),
    decreases 4 - i,
{
    if i < 4 {
        lemma_straight_flush_from(cs, i + 1);
    }
}

/// Among seven cards at most, two flushes have one suit.
proof fn lemma_one_flush_suit(cs: Seq<Card>, b: FullHand, t: FullHand)
    requires
        cs.len() <= 7,
        drawn_from(b, cs),
        drawn_from(t, cs),
        b.is_flush(),
        t.is_flush(),
    ensures
        b.0.1 == t.0.1,
{
    lemma_flush_in(cs, b);
    lemma_flush_in(cs, t);
    if b.0.1 != t.0.1 {
        lemma_suit_split(cs, b.0.1, t.0.1);
    }
}

/// The straight flush: among seven cards at most that hold no royal flush,
/// a straight flush is found if five cards of one suit have ranks in a row
/// or make the wheel, and it is no lower than any five of the cards.
pub proof fn lemma_straight_flush(cs: Seq<Card>, t: FullHand)
    requires
        5 <= cs.len() <= 7,
        cs.no_duplicates(),
        drawn_from(t, cs),
        forall|s: CardSuit| !has_suited_run(cs, s, 14),
        t.spec_rank().strength() <= HandRank::StraightFlush.strength(),
    ensures
        spec_straight_flush(cs) is None ==> t.spec_rank().strength() <= HandRank::FourOfAKind.strength(),
        spec_straight_flush(cs) matches Some(b) ==> drawn_from(b, cs) && b.spec_compare(t) != Winner::Hand2,
{
    let j = straight_flush_suit(cs, 0);
    lemma_straight_flush_from(cs, 0);
    lemma_rank_shape(t);
    let st = t.0.1;
    assert(st == suit_at(st.spec_code()));
    lemma_suited_run_top(cs, st, 14);
    let t_found = t.is_flush() && t.is_straight();
    if t_found {
        lemma_run_or_wheel(t);
        if t.is_run() {
            lemma_suited_run_in(cs, t);
        } else {
            lemma_suited_wheel_in(cs, t);
        }
    }
    if j < 4 {
        let s = suit_at(j);
        let top = suited_run_top(cs, s, 14);
        lemma_suited_run_top(cs, s, 14);
        if top > 0 {
            let b = lemma_suited_run_hand(cs, s, top);
            assert(spec_straight_flush(cs) == Some(b));
            lemma_rank_shape(b);
            if t.spec_rank().strength() == b.spec_rank().strength() {
                lemma_one_flush_suit(cs, b, t);
                lemma_straights_compare(b, t);
            } else {
                lemma_compare_not_lower(b, t);
            }
        } else {
            let b = lemma_suited_wheel_hand(cs, s);
            assert(spec_straight_flush(cs) == Some(b));
            lemma_rank_shape(b);
            lemma_wheel_groups(b);
            if t.spec_rank().strength() == b.spec_rank().strength() {
                lemma_one_flush_suit(cs, b, t);
                lemma_straights_compare(b, t);
            } else {
                lemma_compare_not_lower(b, t);
            }
        }
    }
}

/// The place of the first suit, from place `i` on, in which the cards hold
/// Ace to Ten; 4 where there is none.
pub open spec fn royal_suit(cs: Seq<Card>, i: int) -> int
    decreases 4 - i,
{
    if i >= 4 || i < 0 {
        4
    } else if has_suited_run(cs, suit_at(i), 14) {
        i
    } else {
        royal_suit(cs, i + 1)
    }
}

/// What the search for a royal flush finds.
pub proof fn lemma_royal_flush_from(cs: Seq<Card>, i: int)
    requires
        0 <= i <= 4,
    ensures
        ({
            let j = royal_suit(cs, i);
            &&& i <= j <= 4
            &&& j == 4 <==> royal_flush_from(cs, i) is None
            &&& j < 4 ==> has_suited_run(cs, suit_at(j), 14) && royal_flush_from(cs, i) == Some(
                suited_run(suit_at(j), 14),
            )
            &&& forall|k: int| i <= k < j ==> !has_suited_run(cs, #[trigger] suit_at(k), 14)
        }),
    decreases 4 - i,
{
    if i < 4 {
        lemma_royal_flush_from(cs, i + 1);
    }
}

/// The royal flush: a royal flush is found if the cards hold Ace to Ten of
/// one suit, and it is no lower than any five of the cards.
pub proof fn lemma_royal_flush(cs: Seq<Card>, t: FullHand)
    requires
        5 <= cs.len(),
        cs.no_duplicates(),
        drawn_from(t, cs),
    ensures
        spec_royal_flush(cs) is None ==> (forall|s: CardSuit| !has_suited_run(cs, s, 14)) && t.spec_rank().strength()
            <= HandRank::StraightFlush.strength(),
        spec_royal_flush(cs) matches Some(b) ==> drawn_from(b, cs) && b.spec_compare(t) != Winner::Hand2,
{
    let j = royal_suit(cs, 0);
    lemma_royal_flush_from(cs, 0);
    lemma_rank_shape(t);
    if t.spec_rank() == HandRank::RoyalFlush {
        lemma_suited_run_in(cs, t);
        assert(t.0.1 == suit_at(t.0.1.spec_code()));
    }
    if j == 4 {
        assert forall|s: CardSuit| !has_suited_run(cs, s, 14) by {
            assert(s == suit_at(s.spec_code()));
        }
    } else {
        let b = lemma_suited_run_hand(cs, suit_at(j), 14);
        assert(spec_royal_flush(cs) == Some(b));
        lemma_royal_category(b);
        if t.spec_rank().strength() == b.spec_rank().strength() {
            lemma_straights_compare(b, t);
        } else {
            lemma_compare_not_lower(b, t);
        }
    }
}

/// A flush of Ace to Ten is a royal flush.
proof fn lemma_royal_category(b: FullHand)
    requires
        b.is_flush(),
        b.is_run(),
        b.top_rank() == 14,
    ensures
        b.spec_rank() == HandRank::RoyalFlush,
        !b.spec_is_wheel(),
{
    reveal(FullHand::spec_rank);
    lemma_run_ranks(b);
}

/// The best hand is best: from five to seven different cards, the search
/// finds a hand of five of the cards, and no five of the cards win against
/// it.
pub proof fn lemma_best_is_maximal(cs: Seq<Card>, t: FullHand)
    requires
        5 <= cs.len() <= 7,
        cs.no_duplicates(),
        drawn_from(t, cs),
    ensures
        spec_best(cs) is Some,
        drawn_from(spec_best(cs)->Some_0, cs),
        spec_best(cs)->Some_0.spec_compare(t) != Winner::Hand2,
{
    lemma_rank_shape(t);
    lemma_royal_flush(cs, t);
    if spec_royal_flush(cs) is None {
        lemma_straight_flush(cs, t);
        if spec_straight_flush(cs) is None {
            lemma_four(cs, t);
            if spec_four_of_a_kind(cs) is None {
                lemma_full_house(cs, t);
                if spec_full_house(cs) is None {
                    lemma_flush(cs, t);
                    if spec_flush(cs) is None {
                        lemma_straight(cs, t);
                        if spec_straight(cs) is None {
                            lemma_trio(cs, t);
                            if spec_three_of_a_kind(cs) is None {
                                lemma_two_pair(cs, t);
                                if spec_two_pair(cs) is None {
                                    lemma_pair(cs, t);
                                    if spec_pair(cs) is None {
                                        lemma_high_card(cs, t);
                                    }
                                }
                            }
                        }
                    }
                }
            }
        }
    }
}

/// The best hand that hole cards and a board make is best among all hands
/// of five of those cards, where there are five or more and no card comes
/// twice.
pub proof fn lemma_hand_best_is_maximal(hand: Hand, board: Board, t: FullHand)
    requires
        hand.spec_all_cards(board).len() >= 5,
        hand.spec_all_cards(board).no_duplicates(),
        drawn_from(t, hand.spec_all_cards(board)),
    ensures
        spec_best(hand.spec_all_cards(board)) is Some,
        drawn_from(spec_best(hand.spec_all_cards(board))->Some_0, hand.spec_all_cards(board)),
        spec_best(hand.spec_all_cards(board))->Some_0.spec_compare(t) != Winner::Hand2,
{
    lemma_best_is_maximal(hand.spec_all_cards(board), t);
}

} // verus!
