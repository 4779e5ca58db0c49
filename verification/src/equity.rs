//! Equity by trial: how often each of several hands is best when the rest
//! of the board is dealt at random.

use vstd::prelude::*;
use crate::best::spec_best;
use crate::cards::{fresh_deck, get_all_cards, Board, Card, FullHand, Hand, Winner};
use crate::decided::{board_can_fill, lemma_run_is_decided};
use crate::protocol::Equity;
use crate::random::{shuffle_cards, thread_rng};
use crate::select::contains_card;

verus! {

/// The cards of the first `k` of a fresh deck that are not among `known`,
/// in the order of the deck.
pub open spec fn unseen_below(known: Seq<Card>, k: int) -> Seq<Card>
    decreases k,
{
    if k <= 0 {
        Seq::<Card>::empty()
    } else if known.contains(fresh_deck()[k - 1]) {
        unseen_below(known, k - 1)
    } else {
        unseen_below(known, k - 1).push(fresh_deck()[k - 1])
    }
}

/// The cards of a deck that are not among `known`.
pub open spec fn unseen(known: Seq<Card>) -> Seq<Card> {
    unseen_below(known, 52)
}

/// The hole cards of all `hands`, then the cards of the board.
pub open spec fn known_cards(hands: Seq<Hand>, board: Board) -> Seq<Card> {
    Seq::new(2 * hands.len(), |i: int| if i % 2 == 0 {
        hands[i / 2].0
    } else {
        hands[i / 2].1
    }) + board.spec_cards()
}

/// The best hand of each of `hands` on `board`.
pub open spec fn hand_bests(hands: Seq<Hand>, board: Board) -> Seq<Option<FullHand>> {
    Seq::new(hands.len(), |i: int| spec_best(hands[i].spec_all_cards(board)))
}

/// The positions, among the first `k` of `bests`, of the hands that lead:
/// going through the hands in order, a hand that beats the leader takes the
/// lead alone, and a hand that ties with the leader joins the lead. A
/// missing hand takes no part.
pub open spec fn leaders(bests: Seq<Option<FullHand>>, k: int) -> Seq<usize>
    decreases k,
{
    if k <= 0 {
        Seq::<usize>::empty()
    } else {
        let before = leaders(bests, k - 1);
        if bests[k - 1] is None {
            before
        } else if before.len() == 0 {
            seq![(k - 1) as usize]
        } else {
            match bests[k - 1]->Some_0.spec_compare(bests[before[0] as int]->Some_0) {
                Winner::Hand1 => seq![(k - 1) as usize],
                Winner::Tie => before.push((k - 1) as usize),
                Winner::Hand2 => before,
            }
        }
    }
}

/// The leaders are positions below `k`, in rising order, of hands that are
/// there.
pub proof fn lemma_leaders_rise(bests: Seq<Option<FullHand>>, k: int)
    requires
        0 <= k <= bests.len(),
        k <= usize::MAX,
    ensures
        leaders(bests, k).len() <= k,
        forall|i: int| 0 <= i < leaders(bests, k).len() ==> (#[trigger] leaders(bests, k)[i]) < k,
        forall|i: int, j: int|
            0 <= i < j < leaders(bests, k).len() ==> leaders(bests, k)[i] < leaders(bests, k)[j],
        forall|i: int| 0 <= i < leaders(bests, k).len() ==> bests[(#[trigger] leaders(bests, k)[i]) as int] is Some,
    decreases k,
{
    if k > 0 {
        lemma_leaders_rise(bests, k - 1);
    }
}

/// How many of the positions below `upto` are among `lead`.
pub open spec fn lead_below(lead: Seq<usize>, upto: int) -> int
    decreases upto,
{
    if upto <= 0 {
        0
    } else {
        lead_below(lead, upto - 1) + (if lead.contains((upto - 1) as usize) {
            1int
        } else {
            0
        })
    }
}

/// Of rising positions below `n`, all are counted below `n`.
pub proof fn lemma_lead_below_all(lead: Seq<usize>, n: int)
    requires
        0 <= n <= usize::MAX,
        forall|i: int| 0 <= i < lead.len() ==> (#[trigger] lead[i]) < n,
        forall|i: int, j: int| 0 <= i < j < lead.len() ==> lead[i] < lead[j],
    ensures
        lead_below(lead, n) == lead.len(),
        lead.len() <= n,
    decreases n,
{
    if n > 0 {
        if lead.len() > 0 && lead.last() == n - 1 {
            let rest = lead.drop_last();
            assert forall|i: int| 0 <= i < rest.len() implies (#[trigger] rest[i]) < n - 1 by {
                assert(rest[i] == lead[i]);
                assert(lead[i] < lead[lead.len() - 1]);
            }
            lemma_lead_below_all(rest, n - 1);
            assert forall|x: usize| x < n - 1 implies (lead.contains(x) <==> rest.contains(x)) by {
                if lead.contains(x) {
                    let i = choose|i: int| 0 <= i < lead.len() && lead[i] == x;
                    assert(i < lead.len() - 1);
                    assert(rest[i] == x);
                }
                if rest.contains(x) {
                    let i = choose|i: int| 0 <= i < rest.len() && rest[i] == x;
                    assert(lead[i] == x);
                }
            }
            lemma_lead_below_same(lead, rest, n - 1);
            assert(lead[lead.len() - 1] == (n - 1) as usize);
        } else {
            assert forall|i: int| 0 <= i < lead.len() implies (#[trigger] lead[i]) < n - 1 by {
                if lead[i] == n - 1 {
                    if i < lead.len() - 1 {
                        assert(lead[i] < lead[lead.len() - 1]);
                    }
                }
            }
            lemma_lead_below_all(lead, n - 1);
            assert(!lead.contains((n - 1) as usize)) by {
                if lead.contains((n - 1) as usize) {
                    let i = choose|i: int| 0 <= i < lead.len() && lead[i] == (n - 1) as usize;
                    assert(lead[i] < n - 1);
                }
            }
        }
    } else {
        if lead.len() > 0 {
            assert(lead[0] < n);
        }
    }
}

proof fn lemma_lead_below_same(a: Seq<usize>, b: Seq<usize>, upto: int)
    requires
        0 <= upto <= usize::MAX,
        forall|x: usize| x < upto ==> (a.contains(x) <==> b.contains(x)),
    ensures
        lead_below(a, upto) == lead_below(b, upto),
    decreases upto,
{
    if upto > 0 {
        lemma_lead_below_same(a, b, upto - 1);
    }
}

/// What the trials have brought so far, for `shares.len()` hands:
/// `shares[i][k - 1]` counts the trials in which hand `i` was one of
/// exactly `k` leaders, and `ways[k - 1]` the trials that had exactly `k`
/// leaders.
#[derive(Debug)]
pub struct EquityTally {
    pub trials: u64,
    pub ways: Vec<u64>,
    pub shares: Vec<Vec<u64>>,
}

impl EquityTally {
    /// The number of hands.
    pub open spec fn hands(self) -> int {
        self.shares@.len() as int
    }

    pub open spec fn cell(self, i: int, k: int) -> int {
        self.shares@[i]@[k] as int
    }

    /// The sum of column `k` over the first `upto` hands.
    pub open spec fn column(self, k: int, upto: int) -> int
        decreases upto,
    {
        if upto <= 0 {
            0
        } else {
            self.column(k, upto - 1) + self.cell(upto - 1, k)
        }
    }

    /// The number of trials with no more than `upto` leaders, and at least
    /// one.
    pub open spec fn decided(self, upto: int) -> int
        decreases upto,
    {
        if upto <= 0 {
            0
        } else {
            self.decided(upto - 1) + self.ways@[upto - 1]
        }
    }

    /// The tally is square, no count exceeds the number of trials, and the
    /// shares add up: the trials with `k` leaders count `k` times in the
    /// column of `k`, so that the hands' shares of each trial make one
    /// whole, and the decided trials are no more than the trials.
    pub open spec fn wf(self) -> bool {
        &&& self.ways@.len() == self.hands()
        &&& forall|i: int| 0 <= i < self.hands() ==> (#[trigger] self.shares@[i])@.len() == self.hands()
        &&& forall|i: int, k: int| 0 <= i < self.hands() && 0 <= k < self.hands() ==> self.cell(i, k) <= self.trials
        &&& forall|k: int| 0 <= k < self.hands() ==> self.column(k, self.hands()) == (k + 1) * (#[trigger] self.ways@[k])
        &&& self.decided(self.hands()) <= self.trials
    }

    /// The tally of `n` hands before any trial.
    pub open spec fn is_empty(self, n: int) -> bool {
        &&& self.trials == 0
        &&& self.hands() == n
        &&& self.ways@.len() == n
        &&& forall|k: int| 0 <= k < n ==> self.ways@[k] == 0
        &&& forall|i: int| 0 <= i < n ==> (#[trigger] self.shares@[i])@.len() == n
        &&& forall|i: int, k: int| 0 <= i < n && 0 <= k < n ==> self.cell(i, k) == 0
    }

    /// The tally after a trial with the leaders `lead`.
    pub open spec fn records(self, before: EquityTally, lead: Seq<usize>) -> bool {
        &&& self.trials == before.trials + 1
        &&& self.hands() == before.hands()
        &&& self.ways@.len() == before.ways@.len()
        &&& forall|i: int| 0 <= i < self.hands() ==> (#[trigger] self.shares@[i])@.len() == before.shares@[i]@.len()
        &&& forall|k: int|
            0 <= k < self.hands() ==> (#[trigger] self.ways@[k]) == before.ways@[k] + (if k + 1 == lead.len() {
                1int
            } else {
                0
            })
        &&& forall|i: int, k: int|
            0 <= i < self.hands() && 0 <= k < self.hands() ==> self.cell(i, k) == before.cell(i, k) + (if k + 1
                == lead.len() && lead.contains(i as usize) {
                1int
            } else {
                0
            })
    }

    /// An empty tally for `n` hands.
    pub fn new(n: usize) -> (tally: EquityTally)
        ensures
            tally.wf(),
            tally.is_empty(n as int),
    {
        let mut ways: Vec<u64> = Vec::new();
        let mut shares: Vec<Vec<u64>> = Vec::new();
        let mut i: usize = 0;
        while i < n
            invariant
                i <= n,
                ways@.len() == i,
                shares@.len() == i,
                forall|k: int| 0 <= k < i ==> ways@[k] == 0,
                forall|r: int| 0 <= r < i ==> (#[trigger] shares@[r])@.len() == n,
                forall|r: int, k: int| 0 <= r < i && 0 <= k < n ==> (#[trigger] shares@[r]@[k]) == 0,
            decreases n - i,
        {
            let mut row: Vec<u64> = Vec::new();
            let mut k: usize = 0;
            while k < n
                invariant
                    k <= n,
                    row@.len() == k,
                    forall|j: int| 0 <= j < k ==> row@[j] == 0,
                decreases n - k,
            {
                row.push(0);
                k = k + 1;
            }
            shares.push(row);
            ways.push(0);
            i = i + 1;
        }
        let tally = EquityTally { trials: 0, ways, shares };
        proof {
            assert forall|k: int| 0 <= k < tally.hands() implies tally.column(k, tally.hands()) == (k + 1) * (
            #[trigger] tally.ways@[k]) by {
                lemma_column_zero(tally, k, tally.hands());
                assert((k + 1) * 0 == 0) by (nonlinear_arith);
            }
            lemma_decided_zero(tally, tally.hands());
        }
        tally
    }

    /// Records a trial with the leaders `lead`.
    pub fn record(&mut self, lead: &Vec<usize>)
        requires
            old(self).wf(),
            old(self).trials < u64::MAX,
            forall|i: int| 0 <= i < lead@.len() ==> (#[trigger] lead@[i]) < old(self).hands(),
            forall|i: int, j: int| 0 <= i < j < lead@.len() ==> lead@[i] < lead@[j],
        ensures
            final(self).records(*old(self), lead@),
            final(self).wf(),
    {
        let n: usize = self.shares.len();
        let count: usize = lead.len();
        let ghost before = *self;
        self.trials = self.trials + 1;
        if count == 0 {
            proof {
                assert(self.shares == before.shares);
                assert(self.ways == before.ways);
                assert forall|i: int, k: int| 0 <= i < self.hands() && 0 <= k < self.hands() implies self.cell(i, k)
                    <= self.trials by {
                    assert(before.cell(i, k) <= before.trials);
                }
                assert forall|k: int| 0 <= k < self.hands() implies self.column(k, self.hands()) == (k + 1) * (
                #[trigger] self.ways@[k]) by {
                    lemma_column_same(*self, before, k, self.hands());
                    assert(before.column(k, before.hands()) == (k + 1) * before.ways@[k]);
                }
                lemma_decided_same(*self, before, self.hands());
            }
            return ;
        }
        proof {
            lemma_lead_below_all(lead@, n as int);
        }
        let col: usize = count - 1;
        let mut i: usize = 0;
        while i < n
            invariant
                i <= n,
                n == before.hands(),
                col + 1 == lead@.len(),
                col < n,
                before.wf(),
                before.trials < u64::MAX,
                self.trials == before.trials + 1,
                self.ways == before.ways,
                self.shares@.len() == n,
                forall|r: int| 0 <= r < n ==> (#[trigger] self.shares@[r])@.len() == n,
                forall|r: int, k: int|
                    0 <= r < n && 0 <= k < n ==> self.cell(r, k) == before.cell(r, k) + (if r < i && k == col
                        && lead@.contains(r as usize) {
                        1int
                    } else {
                        0
                    }),
            decreases n - i,
        {
            if index_listed(lead, i) {
                let ghost rows = self.shares@;
                let ghost mid = *self;
                proof {
                    assert(self.cell(i as int, col as int) == before.cell(i as int, col as int));
                    assert(before.cell(i as int, col as int) <= before.trials);
                }
                let row = bumped(&self.shares[i], col);
                self.shares.set(i, row);
                proof {
                    assert forall|r: int| 0 <= r < n implies (#[trigger] self.shares@[r])@.len() == n by {
                        if r != i {
                            assert(self.shares@[r] == rows[r]);
                        }
                    }
                    assert forall|r: int, k: int| 0 <= r < n && 0 <= k < n implies self.cell(r, k) == before.cell(r, k)
                        + (if r < i + 1 && k == col && lead@.contains(r as usize) {
                        1int
                    } else {
                        0
                    }) by {
                        assert(mid.cell(r, k) == before.cell(r, k) + (if r < i && k == col && lead@.contains(
                            r as usize,
                        ) {
                            1int
                        } else {
                            0
                        }));
                        if r != i {
                            assert(self.shares@[r] == rows[r]);
                        } else {
                            assert(self.shares@[r]@ == rows[r]@.update(col as int, (rows[r]@[col as int] + 1) as u64));
                        }
                    }
                }
            }
            i = i + 1;
        }
        proof {
            lemma_ways_bounded(before, col as int, before.hands());
        }
        let ghost filled = *self;
        let bumped_ways = bumped(&self.ways, col);
        self.ways = bumped_ways;
        proof {
            assert forall|k: int| 0 <= k < self.hands() implies self.column(k, self.hands()) == (k + 1) * (
            #[trigger] self.ways@[k]) by {
                assert forall|r: int| 0 <= r < self.hands() implies self.cell(r, k) == before.cell(r, k) + (if k + 1
                    == lead@.len() && lead@.contains(r as usize) {
                    1int
                } else {
                    0
                }) by {
                    assert(filled.cell(r, k) == before.cell(r, k) + (if r < n && k == col && lead@.contains(r as usize) {
                        1int
                    } else {
                        0
                    }));
                }
                lemma_column_after(*self, before, lead@, k, self.hands());
                assert(before.column(k, before.hands()) == (k + 1) * before.ways@[k]);
                if k == col {
                    assert((k + 1) * (before.ways@[k] + 1) == (k + 1) * before.ways@[k] + (k + 1)) by (nonlinear_arith);
                }
            }
            lemma_decided_after(*self, before, col as int, self.hands());
            assert forall|i: int, k: int| 0 <= i < self.hands() && 0 <= k < self.hands() implies self.cell(i, k)
                == before.cell(i, k) + (if k + 1 == lead@.len() && lead@.contains(i as usize) {
                1int
            } else {
                0
            }) && self.cell(i, k) <= self.trials by {
                assert(filled.cell(i, k) == before.cell(i, k) + (if i < n && k == col && lead@.contains(i as usize) {
                    1int
                } else {
                    0
                }));
                assert(before.cell(i, k) <= before.trials);
            }
            assert forall|i: int| 0 <= i < self.hands() implies (#[trigger] self.shares@[i])@.len() == self.hands()
                && self.shares@[i]@.len() == before.shares@[i]@.len() by {
                assert(filled.shares@[i]@.len() == n);
                assert(before.shares@[i]@.len() == n);
            }
            assert forall|k: int| 0 <= k < self.hands() implies (#[trigger] self.ways@[k]) == before.ways@[k] + (if k
                + 1 == lead@.len() {
                1int
            } else {
                0
            }) by {}
        }
    }

    /// What hand `i` got out of the trials.
    pub fn equity_of(&self, i: usize) -> (e: Equity)
        requires
            i < self.hands(),
        ensures
            e.trials == self.trials,
            e.shares@ == self.shares@[i as int]@,
    {
        Equity { trials: self.trials, shares: copy_counts(&self.shares[i]) }
    }
}

proof fn lemma_column_zero(t: EquityTally, k: int, upto: int)
    requires
        forall|i: int| 0 <= i < upto ==> t.cell(i, k) == 0,
    ensures
        t.column(k, upto) == 0,
    decreases upto,
{
    if upto > 0 {
        lemma_column_zero(t, k, upto - 1);
    }
}

/// A tally in which no trial had a leader has no decided trial.
pub proof fn lemma_decided_zero(t: EquityTally, upto: int)
    requires
        forall|k: int| 0 <= k < upto ==> t.ways@[k] == 0,
    ensures
        t.decided(upto) == 0,
    decreases upto,
{
    if upto > 0 {
        lemma_decided_zero(t, upto - 1);
    }
}

proof fn lemma_ways_bounded(t: EquityTally, k: int, upto: int)
    requires
        0 <= k < upto,
    ensures
        t.ways@[k] <= t.decided(upto),
        t.decided(upto) >= 0,
    decreases upto,
{
    if k < upto - 1 {
        lemma_ways_bounded(t, k, upto - 1);
    } else {
        lemma_decided_nonnegative(t, upto - 1);
    }
}

proof fn lemma_decided_nonnegative(t: EquityTally, upto: int)
    ensures
        t.decided(upto) >= 0,
    decreases upto,
{
    if upto > 0 {
        lemma_decided_nonnegative(t, upto - 1);
    }
}

proof fn lemma_column_same(a: EquityTally, b: EquityTally, k: int, upto: int)
    requires
        forall|i: int| 0 <= i < upto ==> a.cell(i, k) == b.cell(i, k),
    ensures
        a.column(k, upto) == b.column(k, upto),
    decreases upto,
{
    if upto > 0 {
        lemma_column_same(a, b, k, upto - 1);
    }
}

proof fn lemma_decided_same(a: EquityTally, b: EquityTally, upto: int)
    requires
        forall|k: int| 0 <= k < upto ==> a.ways@[k] == b.ways@[k],
    ensures
        a.decided(upto) == b.decided(upto),
    decreases upto,
{
    if upto > 0 {
        lemma_decided_same(a, b, upto - 1);
    }
}

proof fn lemma_column_after(a: EquityTally, b: EquityTally, lead: Seq<usize>, k: int, upto: int)
    requires
        0 <= upto <= usize::MAX,
        forall|i: int|
            0 <= i < upto ==> a.cell(i, k) == b.cell(i, k) + (if k + 1 == lead.len() && lead.contains(i as usize) {
                1int
            } else {
                0
            }),
    ensures
        a.column(k, upto) == b.column(k, upto) + (if k + 1 == lead.len() {
            lead_below(lead, upto)
        } else {
            0
        }),
    decreases upto,
{
    if upto > 0 {
        lemma_column_after(a, b, lead, k, upto - 1);
    }
}

proof fn lemma_decided_after(a: EquityTally, b: EquityTally, col: int, upto: int)
    requires
        forall|k: int| 0 <= k < upto ==> a.ways@[k] == b.ways@[k] + (if k == col {
            1int
        } else {
            0
        }),
    ensures
        a.decided(upto) == b.decided(upto) + (if 0 <= col < upto {
            1int
        } else {
            0
        }),
    decreases upto,
{
    if upto > 0 {
        lemma_decided_after(a, b, col, upto - 1);
    }
}

fn index_listed(list: &Vec<usize>, x: usize) -> (b: bool)
    ensures
        b == list@.contains(x),
{
    let mut i: usize = 0;
    while i < list.len()
        invariant
            i <= list.len(),
            forall|k: int| 0 <= k < i ==> list@[k] != x,
        decreases list.len() - i,
    {
        if list[i] == x {
            return true;
        }
        i = i + 1;
    }
    false
}

fn copy_counts(row: &Vec<u64>) -> (out: Vec<u64>)
    ensures
        out@ == row@,
{
    let mut out: Vec<u64> = Vec::new();
    let mut i: usize = 0;
    while i < row.len()
        invariant
            i <= row.len(),
            out@ == row@.take(i as int),
        decreases row.len() - i,
    {
        out.push(row[i]);
        proof {
            assert(row@.take(i + 1) =~= row@.take(i as int).push(row@[i as int]));
        }
        i = i + 1;
    }
    proof {
        assert(row@.take(row.len() as int) =~= row@);
    }
    out
}

/// A copy of `row` with the count at `at` raised by one.
fn bumped(row: &Vec<u64>, at: usize) -> (out: Vec<u64>)
    requires
        at < row@.len(),
        row@[at as int] < u64::MAX,
    ensures
        out@ == row@.update(at as int, (row@[at as int] + 1) as u64),
{
    let mut out: Vec<u64> = copy_counts(row);
    let raised: u64 = row[at] + 1;
    out.set(at, raised);
    out
}

/// The leaders of the trial in which `deck` fills the board: the missing
/// streets come from the end of the deck.
pub open spec fn trial_leaders(hands: Seq<Hand>, board: Board, deck: Seq<Card>) -> Seq<usize> {
    leaders(hand_bests(hands, board.spec_fill(deck).0), hands.len() as int)
}

/// `history` tells how a tally came about: it begins with the empty tally,
/// and each of `decks`, a shuffle of the cards that nobody holds, brings
/// one trial.
pub open spec fn is_trial_run(hands: Seq<Hand>, board: Board, decks: Seq<Seq<Card>>, history: Seq<EquityTally>) -> bool {
    &&& history.len() == decks.len() + 1
    &&& history[0].is_empty(hands.len() as int)
    &&& forall|i: int|
        0 <= i < decks.len() ==> (#[trigger] decks[i]).to_multiset() == unseen(known_cards(hands, board)).to_multiset()
            && history[i + 1].records(history[i], trial_leaders(hands, board, decks[i]))
}

/// The cards of a deck that are not among `known`.
pub fn remaining_deck(known: &Vec<Card>) -> (deck: Vec<Card>)
    ensures
        deck@ == unseen(known@),
{
    let all = get_all_cards();
    let mut deck: Vec<Card> = Vec::new();
    let mut k: usize = 0;
    while k < 52
        invariant
            k <= 52,
            all@ == fresh_deck(),
            deck@ == unseen_below(known@, k as int),
        decreases 52 - k,
    {
        if !contains_card(known, all[k]) {
            deck.push(all[k]);
        }
        k = k + 1;
    }
    deck
}

/// The hole cards of all hands, then the cards of the board.
pub fn known_list(hands: &Vec<Hand>, board: &Board) -> (known: Vec<Card>)
    ensures
        known@ == known_cards(hands@, *board),
{
    let mut known: Vec<Card> = Vec::new();
    let mut i: usize = 0;
    while i < hands.len()
        invariant
            i <= hands.len(),
            known@.len() == 2 * i,
            forall|j: int| 0 <= j < 2 * i ==> known@[j] == (if j % 2 == 0 {
                hands@[j / 2].0
            } else {
                hands@[j / 2].1
            }),
        decreases hands.len() - i,
    {
        known.push(hands[i].0);
        known.push(hands[i].1);
        i = i + 1;
    }
    let mut rest = board.cards();
    known.append(&mut rest);
    proof {
        assert(known@ =~= known_cards(hands@, *board));
    }
    known
}

/// Finds the hands that lead on `board`.
pub fn round_leaders(hands: &Vec<Hand>, board: &Board) -> (lead: Vec<usize>)
    ensures
        lead@ == leaders(hand_bests(hands@, *board), hands@.len() as int),
{
    let ghost bests = hand_bests(hands@, *board);
    let mut lead: Vec<usize> = Vec::new();
    let mut top: Option<FullHand> = None;
    let mut k: usize = 0;
    while k < hands.len()
        invariant
            k <= hands.len(),
            bests == hand_bests(hands@, *board),
            lead@ == leaders(bests, k as int),
            lead@.len() > 0 ==> top is Some && lead@[0] < k && top == bests[lead@[0] as int],
        decreases hands.len() - k,
    {
        let best = hands[k].best(board);
        proof {
            assert(best == bests[k as int]);
        }
        match best {
            None => {},
            Some(hand) => {
                match top {
                    None => {
                        lead.push(k);
                        top = Some(hand);
                    },
                    Some(leader) => {
                        if lead.len() == 0 {
                            lead.push(k);
                            top = Some(hand);
                        } else {
                            match hand.compare(&leader) {
                                Winner::Hand1 => {
                                    let mut fresh: Vec<usize> = Vec::new();
                                    fresh.push(k);
                                    lead = fresh;
                                    top = Some(hand);
                                },
                                Winner::Tie => {
                                    lead.push(k);
                                },
                                Winner::Hand2 => {},
                            }
                        }
                    },
                }
            },
        }
        proof {
            assert(lead@ =~= leaders(bests, k + 1));
        }
        k = k + 1;
    }
    lead
}

impl EquityTally {
    /// Records the trial in which `deck` fills the board: the missing
    /// streets come from the end of the deck.
    pub fn record_trial(&mut self, hands: &Vec<Hand>, board: &Board, deck: Vec<Card>)
        requires
            old(self).wf(),
            old(self).trials < u64::MAX,
            old(self).hands() == hands@.len(),
        ensures
            final(self).records(*old(self), trial_leaders(hands@, *board, deck@)),
            final(self).wf(),
    {
        let mut deck = deck;
        let filled = board.fill_from_deck(&mut deck);
        let lead = round_leaders(hands, &filled);
        let n: usize = hands.len();
        proof {
            assert(hands@.len() == n);
            lemma_leaders_rise(hand_bests(hands@, filled), hands@.len() as int);
        }
        self.record(&lead);
    }
}

/// Runs `iterations` trials for `hands` on `board`: each time the cards
/// that nobody holds are shuffled and the board is filled from them.
pub fn equity_tally(hands: &Vec<Hand>, board: &Board, iterations: usize) -> (tally: EquityTally)
    ensures
        tally.wf(),
        tally.trials == iterations,
        tally.hands() == hands@.len(),
        exists|decks: Seq<Seq<Card>>, history: Seq<EquityTally>|
            #![trigger is_trial_run(hands@, *board, decks, history)]
            is_trial_run(hands@, *board, decks, history) && decks.len() == iterations && history.last() == tally,
        hands@.len() >= 1 && known_cards(hands@, *board).no_duplicates() && board_can_fill(hands@, *board)
            ==> tally.decided(hands@.len() as int) == tally.trials,
{
    let mut tally = EquityTally::new(hands.len());
    let known = known_list(hands, board);
    let mut rng = thread_rng();
    let mut done: usize = 0;
    let ghost mut decks: Seq<Seq<Card>> = Seq::empty();
    let ghost mut history: Seq<EquityTally> = seq![tally];
    while done < iterations
        invariant
            done <= iterations,
            tally.wf(),
            tally.trials == done,
            tally.hands() == hands@.len(),
            known@ == known_cards(hands@, *board),
            decks.len() == done,
            is_trial_run(hands@, *board, decks, history),
            history.last() == tally,
        decreases iterations - done,
    {
        let mut deck = remaining_deck(&known);
        shuffle_cards(&mut deck, &mut rng);
        let ghost dealt = deck@;
        let ghost before = history;
        let ghost before_decks = decks;
        tally.record_trial(hands, board, deck);
        proof {
            decks = decks.push(dealt);
            history = history.push(tally);
            assert forall|i: int| 0 <= i < decks.len() implies (#[trigger] decks[i]).to_multiset() == unseen(
                known_cards(hands@, *board),
            ).to_multiset() && history[i + 1].records(history[i], trial_leaders(hands@, *board, decks[i])) by {
                if i < before_decks.len() {
                    assert(decks[i] == before_decks[i]);
                    assert(history[i] == before[i]);
                    assert(history[i + 1] == before[i + 1]);
                } else {
                    assert(history[i] == before.last());
                }
            }
        }
        done = done + 1;
    }
    proof {
        if hands@.len() >= 1 && known_cards(hands@, *board).no_duplicates() && board_can_fill(hands@, *board) {
            lemma_run_is_decided(hands@, *board, decks, history, history.len() - 1);
        }
    }
    tally
}

/// The equity of each of `hands` on `board`, by `iterations` trials. A
/// single hand has all of the equity; no hands have none.
pub fn calculate_equity_multi(hands: &Vec<Hand>, board: &Board, iterations: usize) -> (equities: Vec<Equity>)
    ensures
        equities@.len() == hands@.len(),
        hands@.len() == 1 ==> equities@[0].trials == 1 && equities@[0].shares@ == seq![1u64],
        hands@.len() >= 2 ==> exists|tally: EquityTally, decks: Seq<Seq<Card>>, history: Seq<EquityTally>|
            #![trigger is_trial_run(hands@, *board, decks, history), tally.wf()]
            {
                &&& tally.wf()
                &&& tally.trials == iterations
                &&& tally.hands() == hands@.len()
                &&& is_trial_run(hands@, *board, decks, history)
                &&& decks.len() == iterations
                &&& history.last() == tally
                &&& known_cards(hands@, *board).no_duplicates() && board_can_fill(hands@, *board) ==> tally.decided(
                    hands@.len() as int,
                ) == tally.trials
                &&& forall|i: int|
                    0 <= i < hands@.len() ==> (#[trigger] equities@[i]).trials == tally.trials && equities@[i].shares@
                        == tally.shares@[i]@
            },
{
    let mut equities: Vec<Equity> = Vec::new();
    if hands.len() == 0 {
        return equities;
    }
    if hands.len() == 1 {
        let mut shares: Vec<u64> = Vec::new();
        shares.push(1);
        equities.push(Equity { trials: 1, shares });
        return equities;
    }
    let tally = equity_tally(hands, board, iterations);
    let mut i: usize = 0;
    while i < hands.len()
        invariant
            i <= hands.len(),
            tally.hands() == hands@.len(),
            equities@.len() == i,
            forall|j: int|
                0 <= j < i ==> (#[trigger] equities@[j]).trials == tally.trials && equities@[j].shares@
                    == tally.shares@[j]@,
        decreases hands.len() - i,
    {
        equities.push(tally.equity_of(i));
        i = i + 1;
    }
    proof {
        let w = choose|decks: Seq<Seq<Card>>, history: Seq<EquityTally>|
            #![trigger is_trial_run(hands@, *board, decks, history)]
            is_trial_run(hands@, *board, decks, history) && decks.len() == iterations && history.last() == tally;
        assert(is_trial_run(hands@, *board, w.0, w.1) && tally.wf());
    }
    equities
}

} // verus!
