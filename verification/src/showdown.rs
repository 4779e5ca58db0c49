//! The end of a hand: who wins, what each winner gets, and what the table is
//! told.

use vstd::prelude::*;
use crate::best::spec_best;
use crate::cards::{Card, FullHand, Hand, Winner};
use crate::evaluate::{lemma_compare_antisymmetric, lemma_compare_transitive};
use crate::game::{keep, total_chips, GamePhase, GameState, Player, PlayerStatus, SeatFilter, Table};
use crate::game::{is_walk, lemma_keep_members, lemma_total_chips_insert};
use crate::protocol::{card_to_info, message_views, shown_hand_views, spec_card_to_info, winner_views, CardInfo, ServerMessage, ServerMessageView};

verus! {

broadcast use vstd::std_specs::hash::group_hash_axioms;

/// The second hand is stronger than the first; a hand that is missing is
/// never beaten and beats nothing.
pub open spec fn beats(first: Option<FullHand>, second: Option<FullHand>) -> bool {
    first is Some && second is Some && first->Some_0.spec_compare(second->Some_0) == Winner::Hand2
}

/// No other hand of `bests` is stronger than the hand at position `i`.
pub open spec fn unbeaten_at(bests: Seq<Option<FullHand>>, i: int) -> bool {
    forall|j: int| 0 <= j < bests.len() && j != i ==> !beats(bests[i], #[trigger] bests[j])
}

/// The positions below `k` whose hands are unbeaten, in rising order.
pub open spec fn unbeaten_below(bests: Seq<Option<FullHand>>, k: int) -> Seq<int>
    decreases k,
{
    if k <= 0 {
        Seq::<int>::empty()
    } else if unbeaten_at(bests, k - 1) {
        unbeaten_below(bests, k - 1).push(k - 1)
    } else {
        unbeaten_below(bests, k - 1)
    }
}

/// The name of the category of the last unbeaten hand below position `k`;
/// empty where no unbeaten hand is there.
pub open spec fn winning_label(bests: Seq<Option<FullHand>>, k: int) -> Seq<char>
    decreases k,
{
    if k <= 0 {
        Seq::<char>::empty()
    } else if unbeaten_at(bests, k - 1) && bests[k - 1] is Some {
        bests[k - 1]->Some_0.spec_rank().spec_label()
    } else {
        winning_label(bests, k - 1)
    }
}

/// Among the first `n` hands one is not beaten by any other of them.
proof fn lemma_unbeaten_among(bests: Seq<Option<FullHand>>, n: int) -> (m: int)
    requires
        1 <= n <= bests.len(),
    ensures
        0 <= m < n,
        forall|j: int| 0 <= j < n && j != m ==> !beats(bests[m], #[trigger] bests[j]),
    decreases n,
{
    if n == 1 {
        0
    } else {
        let m = lemma_unbeaten_among(bests, n - 1);
        if beats(bests[m], bests[n - 1]) {
            let top = bests[n - 1]->Some_0;
            let old_top = bests[m]->Some_0;
            lemma_compare_antisymmetric(old_top, top);
            assert forall|j: int| 0 <= j < n && j != n - 1 implies !beats(bests[n - 1], #[trigger] bests[j]) by {
                if beats(bests[n - 1], bests[j]) {
                    let other = bests[j]->Some_0;
                    lemma_compare_antisymmetric(top, other);
                    lemma_compare_transitive(other, top, old_top);
                    lemma_compare_antisymmetric(old_top, other);
                    if j == m {
                        assert(other == old_top);
                    }
                }
            }
            n - 1
        } else {
            m
        }
    }
}

/// Whenever hands are compared, at least one of them is unbeaten.
pub proof fn lemma_some_hand_unbeaten(bests: Seq<Option<FullHand>>)
    requires
        bests.len() >= 1,
    ensures
        unbeaten_below(bests, bests.len() as int).len() >= 1,
{
    let m = lemma_unbeaten_among(bests, bests.len() as int);
    assert(unbeaten_at(bests, m));
    lemma_unbeaten_below_holds(bests, bests.len() as int, m);
}

proof fn lemma_unbeaten_below_holds(bests: Seq<Option<FullHand>>, k: int, m: int)
    requires
        0 <= m < k,
        unbeaten_at(bests, m),
    ensures
        unbeaten_below(bests, k).len() >= 1,
    decreases k,
{
    if m < k - 1 {
        lemma_unbeaten_below_holds(bests, k - 1, m);
    }
}

/// The unbeaten positions are positions of `bests`, and no more than `k`.
pub proof fn lemma_unbeaten_below_bounds(bests: Seq<Option<FullHand>>, k: int)
    requires
        k <= bests.len(),
    ensures
        unbeaten_below(bests, k).len() <= (if k >= 0 {
            k
        } else {
            0
        }),
        forall|i: int|
            0 <= i < unbeaten_below(bests, k).len() ==> 0 <= #[trigger] unbeaten_below(bests, k)[i] < k,
    decreases k,
{
    if k > 0 {
        lemma_unbeaten_below_bounds(bests, k - 1);
    }
}


/// The players after the awards up to position `k` were paid, one after the
/// other; an award to somebody who is not seated is paid to nobody.
pub open spec fn paid(players: Map<u32, Player>, awards: Seq<(u32, u32, Seq<char>)>, k: int) -> Map<u32, Player>
    decreases k,
{
    if k <= 0 {
        players
    } else {
        let before = paid(players, awards, k - 1);
        let id = awards[k - 1].0;
        if before.contains_key(id) {
            before.insert(id, Player { chips: (before[id].chips + awards[k - 1].1) as u32, ..before[id] })
        } else {
            before
        }
    }
}

/// The sum of the first `k` awards.
pub open spec fn awarded(awards: Seq<(u32, u32, Seq<char>)>, k: int) -> int
    decreases k,
{
    if k <= 0 {
        0
    } else {
        awarded(awards, k - 1) + awards[k - 1].1
    }
}

impl Table {
    /// The players who show their cards: seated, not folded, and holding
    /// hole cards; in seat order.
    pub open spec fn shown_ids(self) -> Seq<u32> {
        keep(self.players, self.order, SeatFilter::Showing)
    }

    /// The best hand of the player `id` on the board; nothing for somebody
    /// without hole cards or with fewer than five cards to choose from.
    pub open spec fn best_of(self, id: u32) -> Option<FullHand> {
        if self.players.contains_key(id) && self.players[id].hole_cards is Some {
            let hole = self.players[id].hole_cards->Some_0;
            spec_best(Hand(hole.0, hole.1).spec_all_cards(self.board()))
        } else {
            None
        }
    }

    /// The best hands of the players who show, in seat order.
    pub open spec fn shown_bests(self) -> Seq<Option<FullHand>> {
        Seq::new(self.shown_ids().len(), |i: int| self.best_of(self.shown_ids()[i]))
    }

    /// What the showdown shows of the player `id`: the hole cards and the
    /// name of the hand's category.
    pub open spec fn shown_hand(self, id: u32) -> (u32, Seq<CardInfo>, Seq<char>) {
        let hole = self.players[id].hole_cards->Some_0;
        (
            id,
            seq![spec_card_to_info(hole.0), spec_card_to_info(hole.1)],
            match self.best_of(id) {
                Some(h) => h.spec_rank().spec_label(),
                None => "Unknown"@,
            },
        )
    }

    pub open spec fn shown_hands(self) -> Seq<(u32, Seq<CardInfo>, Seq<char>)> {
        Seq::new(self.shown_ids().len(), |i: int| self.shown_hand(self.shown_ids()[i]))
    }

    /// How many players share the pot: one where a single player shows,
    /// else the number of unbeaten hands.
    pub open spec fn winner_count(self) -> nat {
        if self.shown_ids().len() == 1 {
            1
        } else {
            unbeaten_below(self.shown_bests(), self.shown_ids().len() as int).len()
        }
    }

    /// What each winner gets: the pot divided by the number of winners,
    /// rounded down.
    pub open spec fn share(self) -> u32 {
        (self.pot as int / self.winner_count() as int) as u32
    }

    /// The awards of the hand. A single player who shows takes the pot as
    /// "Winner"; else every unbeaten hand gets an equal share, under the
    /// name of the category of the last unbeaten hand.
    pub open spec fn awards(self) -> Seq<(u32, u32, Seq<char>)> {
        let ids = self.shown_ids();
        let bests = self.shown_bests();
        if ids.len() == 1 {
            seq![(ids[0], self.pot, "Winner"@)]
        } else {
            let winners = unbeaten_below(bests, ids.len() as int);
            Seq::new(winners.len(), |i: int| (ids[winners[i]], self.share(), winning_label(bests, ids.len() as int)))
        }
    }

    /// The players after the awards were paid.
    pub open spec fn paid_players(self) -> Map<u32, Player> {
        paid(self.players, self.awards(), self.awards().len() as int)
    }

    /// The game is over after this hand: exactly one of the players, walked
    /// in the order `walk`, has chips left.
    pub open spec fn ends_game(self, walk: Seq<u32>) -> bool {
        keep(self.paid_players(), walk, SeatFilter::Funded).len() == 1
    }

    /// The table after the hand was resolved: the awards are paid and the
    /// pot is empty; where only one player has chips left, the game is
    /// over and the table back in the lobby. Where nobody shows, nobody is
    /// paid, and the pot is emptied all the same.
    pub open spec fn after_resolve(self, walk: Seq<u32>) -> Table {
        if self.shown_ids().len() == 0 {
            Table { pot: 0, ..self }
        } else {
            Table {
                players: self.paid_players(),
                pot: 0,
                game_started: if self.ends_game(walk) {
                    false
                } else {
                    self.game_started
                },
                phase: if self.ends_game(walk) {
                    GamePhase::Lobby
                } else {
                    self.phase
                },
                ..self
            }
        }
    }

    /// The chip counts of all players, walked in the order `walk`.
    pub open spec fn chip_updates(players: Map<u32, Player>, walk: Seq<u32>) -> Seq<ServerMessageView> {
        Seq::new(
            walk.len(),
            |i: int| ServerMessageView::ChipUpdate { player_id: players[walk[i]].id, chips: players[walk[i]].chips },
        )
    }

    /// The players who have just lost their last chips, walked in the order
    /// `walk`.
    pub open spec fn eliminations(players: Map<u32, Player>, walk: Seq<u32>) -> Seq<ServerMessageView> {
        let gone = keep(players, walk, SeatFilter::Eliminated);
        Seq::new(gone.len(), |i: int| ServerMessageView::PlayerEliminated { player_id: players[gone[i]].id })
    }

    /// What the table is told when the hand is resolved: the hands shown,
    /// where more than one player shows; the awards; every player's chips;
    /// who is eliminated; and the winner of the game where it is over.
    /// Nothing where nobody shows.
    pub open spec fn resolve_messages(self, walk: Seq<u32>) -> Seq<ServerMessageView> {
        let players = self.paid_players();
        let funded = keep(players, walk, SeatFilter::Funded);
        if self.shown_ids().len() == 0 {
            Seq::<ServerMessageView>::empty()
        } else {
            (if self.shown_ids().len() == 1 {
                Seq::<ServerMessageView>::empty()
            } else {
                seq![ServerMessageView::Showdown { hands: self.shown_hands() }]
            }) + seq![ServerMessageView::RoundWinner { winners: self.awards() }] + Table::chip_updates(players, walk)
                + Table::eliminations(players, walk) + (if funded.len() == 1 {
                seq![
                    ServerMessageView::GameOver {
                        winner_id: players[funded[0]].id,
                        winner_name: players[funded[0]].name@,
                    },
                ]
            } else {
                Seq::<ServerMessageView>::empty()
            })
        }
    }
}

/// The awards of a hand are as many as there are winners, each the share.
pub proof fn lemma_awards_shape(t: Table)
    requires
        t.shown_ids().len() >= 1,
    ensures
        t.winner_count() >= 1,
        t.awards().len() == t.winner_count(),
        forall|i: int| 0 <= i < t.awards().len() ==> (#[trigger] t.awards()[i]).1 == t.share(),
        t.share() * t.winner_count() <= t.pot,
{
    let n = t.shown_ids().len() as int;
    if n > 1 {
        lemma_some_hand_unbeaten(t.shown_bests());
    }
    let k = t.winner_count() as int;
    let pot = t.pot as int;
    assert((pot / k) * k <= pot) by (nonlinear_arith)
        requires
            k >= 1,
            pot >= 0,
    ;
    assert(0 <= pot / k <= pot) by (nonlinear_arith)
        requires
            k >= 1,
            pot >= 0,
    ;
}

/// The sum of awards that are all `share`.
proof fn lemma_awarded_sum(awards: Seq<(u32, u32, Seq<char>)>, share: u32, k: int)
    requires
        0 <= k <= awards.len(),
        forall|i: int| 0 <= i < awards.len() ==> (#[trigger] awards[i]).1 == share,
    ensures
        awarded(awards, k) == share * k,
    decreases k,
{
    if k > 0 {
        lemma_awarded_sum(awards, share, k - 1);
        assert(awards[k - 1].1 == share);
        assert(share * (k - 1) + share == share * k) by (nonlinear_arith);
    } else {
        assert(share * 0 == 0) by (nonlinear_arith);
    }
}

/// What a showdown awards is the pot but for a remainder that is smaller
/// than the number of winners; the remainder is discarded.
pub proof fn lemma_awards_complete(t: Table)
    requires
        t.shown_ids().len() >= 1,
    ensures
        awarded(t.awards(), t.awards().len() as int) == t.pot - (t.pot as int) % (t.winner_count() as int),
        0 <= (t.pot as int) % (t.winner_count() as int) < t.winner_count(),
{
    lemma_awards_shape(t);
    lemma_awarded_sum(t.awards(), t.share(), t.awards().len() as int);
    let k = t.winner_count() as int;
    let pot = t.pot as int;
    assert((pot / k) * k == pot - pot % k && 0 <= pot % k < k) by (nonlinear_arith)
        requires
            k >= 1,
            pot >= 0,
    ;
}

/// Paying awards seats nobody and unseats nobody.
pub proof fn lemma_paid_dom(players: Map<u32, Player>, awards: Seq<(u32, u32, Seq<char>)>, k: int)
    ensures
        paid(players, awards, k).dom() == players.dom(),
    decreases k,
{
    if k > 0 {
        lemma_paid_dom(players, awards, k - 1);
        let before = paid(players, awards, k - 1);
        let id = awards[k - 1].0;
        if before.contains_key(id) {
            assert(before.insert(
                id,
                Player { chips: (before[id].chips + awards[k - 1].1) as u32, ..before[id] },
            ).dom() =~= before.dom());
        }
    }
}

/// Paying awards adds to the players' chips no more than was awarded, and
/// all of it where every winner is seated.
pub proof fn lemma_paid_total(players: Map<u32, Player>, awards: Seq<(u32, u32, Seq<char>)>, k: int)
    requires
        0 <= k <= awards.len(),
        total_chips(players) + awarded(awards, k) <= u32::MAX,
    ensures
        paid(players, awards, k).dom() == players.dom(),
        total_chips(players) <= total_chips(paid(players, awards, k)) <= total_chips(players) + awarded(awards, k),
        (forall|i: int| 0 <= i < k ==> players.contains_key((#[trigger] awards[i]).0)) ==> total_chips(
            paid(players, awards, k),
        ) == total_chips(players) + awarded(awards, k),
    decreases k,
{
    if k > 0 {
        lemma_paid_total(players, awards, k - 1);
        let before = paid(players, awards, k - 1);
        let id = awards[k - 1].0;
        if before.contains_key(id) {
            let p = Player { chips: (before[id].chips + awards[k - 1].1) as u32, ..before[id] };
            lemma_total_chips_insert(before, id, p);
            assert(before.insert(id, p).dom() =~= before.dom());
        }
    }
}

/// The sum of the awards grows with their number.
proof fn lemma_awarded_grows(awards: Seq<(u32, u32, Seq<char>)>, i: int, k: int)
    requires
        0 <= i <= k,
    ensures
        0 <= awarded(awards, i) <= awarded(awards, k),
    decreases k,
{
    if i < k {
        lemma_awarded_grows(awards, i, k - 1);
    } else if k > 0 {
        lemma_awarded_grows(awards, i - 1, k - 1);
    }
}

/// The wire forms of two hole cards.
fn hole_infos(first: &Card, second: &Card) -> (pair: [CardInfo; 2])
    ensures
        pair@ == seq![spec_card_to_info(*first), spec_card_to_info(*second)],
{
    let pair = [card_to_info(first), card_to_info(second)];
    assert(pair@ =~= seq![spec_card_to_info(*first), spec_card_to_info(*second)]);
    pair
}

fn is_beaten(first: &Option<FullHand>, second: &Option<FullHand>) -> (b: bool)
    ensures
        b == beats(*first, *second),
{
    match (first, second) {
        (Some(a), Some(b)) => a.compare(b) == Winner::Hand2,
        _ => false,
    }
}

fn is_unbeaten(bests: &Vec<Option<FullHand>>, i: usize) -> (b: bool)
    requires
        i < bests.len(),
    ensures
        b == unbeaten_at(bests@, i as int),
{
    let mut j: usize = 0;
    while j < bests.len()
        invariant
            j <= bests.len(),
            i < bests.len(),
            forall|k: int| 0 <= k < j && k != i ==> !beats(bests@[i as int], #[trigger] bests@[k]),
        decreases bests.len() - j,
    {
        if j != i && is_beaten(&bests[i], &bests[j]) {
            return false;
        }
        j = j + 1;
    }
    true
}

/// The IDs at the unbeaten positions below `k`.
pub open spec fn unbeaten_ids(ids: Seq<u32>, bests: Seq<Option<FullHand>>, k: int) -> Seq<u32> {
    Seq::new(unbeaten_below(bests, k).len(), |i: int| ids[unbeaten_below(bests, k)[i]])
}

/// Finds the players whose hands are unbeaten, and the name of their
/// category.
fn pick_winners(ids: &Vec<u32>, bests: &Vec<Option<FullHand>>) -> (r: (Vec<u32>, String))
    requires
        ids@.len() == bests@.len(),
    ensures
        r.0@ == unbeaten_ids(ids@, bests@, ids@.len() as int),
        r.1@ == winning_label(bests@, ids@.len() as int),
{
    let mut winners: Vec<u32> = Vec::new();
    let mut label: String = String::new();
    let mut k: usize = 0;
    assert(winners@ =~= unbeaten_ids(ids@, bests@, 0));
    while k < ids.len()
        invariant
            k <= ids.len(),
            ids@.len() == bests@.len(),
            winners@ == unbeaten_ids(ids@, bests@, k as int),
            label@ == winning_label(bests@, k as int),
        decreases ids.len() - k,
    {
        if is_unbeaten(bests, k) {
            match &bests[k] {
                Some(hand) => {
                    label = hand.rank().label().to_string();
                },
                None => {},
            }
            winners.push(ids[k]);
        }
        proof {
            assert(winners@ =~= unbeaten_ids(ids@, bests@, k + 1));
        }
        k = k + 1;
    }
    (winners, label)
}

impl GameState {
    /// The best hand of a player on the board.
    pub fn best_of_player(&self, id: u32) -> (best: Option<FullHand>)
        ensures
            best == self@.best_of(id),
    {
        match self.players.get(&id) {
            Some(p) => match p.hole_cards {
                Some((a, b)) => {
                    let board = self.build_board();
                    Hand(a, b).best(&board)
                },
                None => None,
            },
            None => None,
        }
    }

    fn best_hands(&self, ids: &Vec<u32>) -> (bests: Vec<Option<FullHand>>)
        ensures
            bests@.len() == ids@.len(),
            forall|i: int| 0 <= i < ids@.len() ==> bests@[i] == self@.best_of(ids@[i]),
    {
        let mut bests: Vec<Option<FullHand>> = Vec::new();
        let mut i: usize = 0;
        while i < ids.len()
            invariant
                i <= ids.len(),
                bests@.len() == i,
                forall|k: int| 0 <= k < i ==> bests@[k] == self@.best_of(ids@[k]),
            decreases ids.len() - i,
        {
            bests.push(self.best_of_player(ids[i]));
            i = i + 1;
        }
        bests
    }

    /// What the showdown shows of each player in `ids`.
    fn shown_list(&self, ids: &Vec<u32>, bests: &Vec<Option<FullHand>>) -> (shown: Vec<(u32, [CardInfo; 2], String)>)
        requires
            ids@ == self@.shown_ids(),
            bests@ == self@.shown_bests(),
        ensures
            shown_hand_views(shown@) == self@.shown_hands(),
    {
        let mut shown: Vec<(u32, [CardInfo; 2], String)> = Vec::new();
        let mut i: usize = 0;
        proof {
            lemma_keep_members(self@.players, self@.order, SeatFilter::Showing);
        }
        while i < ids.len()
            invariant
                i <= ids.len(),
                ids@ == self@.shown_ids(),
                bests@ == self@.shown_bests(),
                shown@.len() == i,
                forall|k: int| 0 <= k < ids@.len() ==> SeatFilter::Showing.accepts(self@.players, #[trigger] ids@[k]),
                forall|k: int|
                    0 <= k < i ==> ((#[trigger] shown@[k]).0, shown@[k].1@, shown@[k].2@) == self@.shown_hand(ids@[k]),
            decreases ids.len() - i,
        {
            let id: u32 = ids[i];
            assert(SeatFilter::Showing.accepts(self@.players, ids@[i as int]));
            let pair = match self.players.get(&id) {
                Some(p) => match p.hole_cards {
                    Some((a, b)) => hole_infos(&a, &b),
                    None => {
                        proof {
                            assert(false);
                        }
                        [CardInfo { rank: 0, suit: 0 }, CardInfo { rank: 0, suit: 0 }]
                    },
                },
                None => {
                    proof {
                        assert(false);
                    }
                    [CardInfo { rank: 0, suit: 0 }, CardInfo { rank: 0, suit: 0 }]
                },
            };
            let label: String = match &bests[i] {
                Some(hand) => hand.rank().label().to_string(),
                None => "Unknown".to_string(),
            };
            shown.push((id, pair, label));
            i = i + 1;
        }
        proof {
            assert(shown_hand_views(shown@) =~= self@.shown_hands());
        }
        shown
    }

    /// Pays the awards, one after the other.
    fn pay_awards(&mut self, awards: &Vec<(u32, u32, String)>)
        requires
            total_chips(old(self)@.players) + awarded(winner_views(awards@), awards@.len() as int) <= u32::MAX,
        ensures
            final(self)@ == (Table {
                players: paid(old(self)@.players, winner_views(awards@), awards@.len() as int),
                ..old(self)@
            }),
    {
        let ghost before = self@;
        let ghost views = winner_views(awards@);
        let mut i: usize = 0;
        while i < awards.len()
            invariant
                i <= awards.len(),
                views == winner_views(awards@),
                self@ == (Table { players: paid(before.players, views, i as int), ..before }),
                total_chips(before.players) + awarded(views, awards@.len() as int) <= u32::MAX,
            decreases awards.len() - i,
        {
            let id: u32 = awards[i].0;
            let amount: u32 = awards[i].1;
            let ghost now = self@.players;
            proof {
                assert(views[i as int].0 == id && views[i as int].1 == amount);
                lemma_awarded_grows(views, i as int, i as int);
                lemma_awarded_grows(views, i + 1, awards@.len() as int);
                lemma_paid_total(before.players, views, i as int);
                if now.contains_key(id) {
                    lemma_total_chips_insert(now, id, now[id]);
                }
            }
            match self.players.remove(&id) {
                Some(p) => {
                    let richer = Player { chips: p.chips + amount, ..p };
                    self.players.insert(id, richer);
                    proof {
                        assert(self@.players =~= paid(before.players, views, i + 1));
                    }
                },
                None => {
                    proof {
                        assert(self@.players =~= paid(before.players, views, i + 1));
                    }
                },
            }
            i = i + 1;
        }
    }

    /// The chip counts of all players, in the order of `walk`.
    fn chip_update_list(&self, walk: &Vec<u32>) -> (msgs: Vec<ServerMessage>)
        requires
            is_walk(walk@, self@.players),
        ensures
            message_views(msgs@) == Table::chip_updates(self@.players, walk@),
    {
        let mut msgs: Vec<ServerMessage> = Vec::new();
        let mut i: usize = 0;
        while i < walk.len()
            invariant
                i <= walk.len(),
                is_walk(walk@, self@.players),
                msgs@.len() == i,
                forall|k: int|
                    0 <= k < i ==> (#[trigger] msgs@[k])@ == (ServerMessageView::ChipUpdate {
                        player_id: self@.players[walk@[k]].id,
                        chips: self@.players[walk@[k]].chips,
                    }),
            decreases walk.len() - i,
        {
            let id: u32 = walk[i];
            proof {
                assert(walk@.contains(id));
                assert(walk@.to_set().contains(id));
            }
            match self.players.get(&id) {
                Some(p) => {
                    msgs.push(ServerMessage::ChipUpdate { player_id: p.id, chips: p.chips });
                },
                None => {
                    proof {
                        assert(false);
                    }
                },
            }
            i = i + 1;
        }
        proof {
            assert(message_views(msgs@) =~= Table::chip_updates(self@.players, walk@));
        }
        msgs
    }

    /// The players who have just lost their last chips, in the order of
    /// `walk`.
    fn elimination_list(&self, walk: &Vec<u32>) -> (msgs: Vec<ServerMessage>)
        ensures
            message_views(msgs@) == Table::eliminations(self@.players, walk@),
    {
        let gone = self.keep_ids(walk, SeatFilter::Eliminated);
        let mut msgs: Vec<ServerMessage> = Vec::new();
        let mut i: usize = 0;
        proof {
            lemma_keep_members(self@.players, walk@, SeatFilter::Eliminated);
        }
        while i < gone.len()
            invariant
                i <= gone.len(),
                gone@ == keep(self@.players, walk@, SeatFilter::Eliminated),
                forall|k: int|
                    0 <= k < gone@.len() ==> SeatFilter::Eliminated.accepts(self@.players, #[trigger] gone@[k]),
                msgs@.len() == i,
                forall|k: int|
                    0 <= k < i ==> (#[trigger] msgs@[k])@ == (ServerMessageView::PlayerEliminated {
                        player_id: self@.players[gone@[k]].id,
                    }),
            decreases gone.len() - i,
        {
            let id: u32 = gone[i];
            assert(SeatFilter::Eliminated.accepts(self@.players, gone@[i as int]));
            match self.players.get(&id) {
                Some(p) => {
                    msgs.push(ServerMessage::PlayerEliminated { player_id: p.id });
                },
                None => {
                    proof {
                        assert(false);
                    }
                },
            }
            i = i + 1;
        }
        proof {
            assert(message_views(msgs@) =~= Table::eliminations(self@.players, walk@));
        }
        msgs
    }
}

/// Resolving a hand keeps the chips at the table but for the remainder of
/// the split, which is smaller than the number of winners and is discarded;
/// the pot is empty afterwards.
pub proof fn lemma_resolve_conserves(t: Table, walk: Seq<u32>)
    requires
        t.wf(),
        t.shown_ids().len() >= 1,
    ensures
        t.after_resolve(walk).pot == 0,
        t.after_resolve(walk).chips_in_play() == t.chips_in_play() - (t.pot as int) % (t.winner_count() as int),
        0 <= (t.pot as int) % (t.winner_count() as int) < t.winner_count(),
        t.after_resolve(walk).wf(),
        t.after_resolve(walk).players.dom() == t.players.dom(),
{
    lemma_awards_shape(t);
    lemma_awards_complete(t);
    let awards = t.awards();
    let ids = t.shown_ids();
    lemma_keep_members(t.players, t.order, SeatFilter::Showing);
    if ids.len() > 1 {
        lemma_unbeaten_below_bounds(t.shown_bests(), ids.len() as int);
    }
    assert forall|i: int| 0 <= i < awards.len() implies t.players.contains_key((#[trigger] awards[i]).0) by {
        if ids.len() == 1 {
            assert(SeatFilter::Showing.accepts(t.players, ids[0]));
        } else {
            let w = unbeaten_below(t.shown_bests(), ids.len() as int);
            assert(awards[i].0 == ids[w[i]]);
            assert(SeatFilter::Showing.accepts(t.players, ids[w[i]]));
        }
    }
    lemma_paid_total(t.players, awards, awards.len() as int);
}

/// The pot is empty after a hand was resolved, whoever shows.
pub proof fn lemma_resolve_empties_pot(t: Table, walk: Seq<u32>)
    ensures
        t.after_resolve(walk).pot == 0,
        t.shown_ids().len() == 0 ==> t.after_resolve(walk).players == t.players && t.resolve_messages(walk).len() == 0,
{
}

impl GameState {
    /// Resolves the hand, walking the players in the order `walk` where all
    /// of them are told something.
    pub fn resolve_hand_in(&mut self, walk: &Vec<u32>) -> (msgs: Vec<ServerMessage>)
        requires
            old(self)@.wf(),
            is_walk(walk@, old(self)@.players),
        ensures
            final(self)@ == old(self)@.after_resolve(walk@),
            message_views(msgs@) == old(self)@.resolve_messages(walk@),
            final(self)@.wf(),
            final(self)@.chips_in_play() <= old(self)@.chips_in_play(),
            final(self)@.pot == 0,
            old(self)@.seats_wf() ==> final(self)@.seats_wf(),
    {
        proof {
            if self@.seats_wf() {
                crate::seats::lemma_seats_after_resolve(self@, walk@);
            }
        }
        let mut msgs: Vec<ServerMessage> = Vec::new();
        let ids = self.keep_seats(SeatFilter::Showing);
        if ids.len() == 0 {
            self.pot = 0;
            proof {
                assert(message_views(msgs@) =~= old(self)@.resolve_messages(walk@));
            }
            return msgs;
        }
        let bests = self.best_hands(&ids);
        proof {
            assert(bests@ =~= self@.shown_bests());
            lemma_awards_shape(self@);
            lemma_awards_complete(self@);
            lemma_resolve_conserves(self@, walk@);
        }
        let mut awards: Vec<(u32, u32, String)> = Vec::new();
        if ids.len() == 1 {
            awards.push((ids[0], self.pot, "Winner".to_string()));
            proof {
                assert(winner_views(awards@) =~= self@.awards());
            }
        } else {
            let (winners, label) = pick_winners(&ids, &bests);
            let share: u32 = if winners.len() > u32::MAX as usize {
                0
            } else {
                self.pot / (winners.len() as u32)
            };
            proof {
                let pot = self@.pot as int;
                let count = winners@.len() as int;
                if count > u32::MAX {
                    assert(pot / count == 0) by (nonlinear_arith)
                        requires
                            0 <= pot < count,
                    ;
                }
                assert(share == self@.share());
            }
            let shown = self.shown_list(&ids, &bests);
            let mut i: usize = 0;
            while i < winners.len()
                invariant
                    i <= winners.len(),
                    awards@.len() == i,
                    forall|k: int|
                        0 <= k < i ==> (#[trigger] awards@[k]).0 == winners@[k] && awards@[k].1 == share
                            && awards@[k].2@ == label@,
                decreases winners.len() - i,
            {
                awards.push((winners[i], share, label.clone()));
                i = i + 1;
            }
            msgs.push(ServerMessage::Showdown { hands: shown });
            proof {
                assert(winner_views(awards@) =~= self@.awards());
            }
        }
        proof {
            assert(message_views(msgs@) =~= (if old(self)@.shown_ids().len() == 1 {
                Seq::<ServerMessageView>::empty()
            } else {
                seq![ServerMessageView::Showdown { hands: old(self)@.shown_hands() }]
            }));
            lemma_paid_total(self@.players, self@.awards(), self@.awards().len() as int);
        }
        self.pay_awards(&awards);
        let ghost told = message_views(msgs@);
        msgs.push(ServerMessage::RoundWinner { winners: awards });
        let mut updates = self.chip_update_list(walk);
        let mut gone = self.elimination_list(walk);
        proof {
            assert(message_views(msgs@) =~= told + seq![ServerMessageView::RoundWinner { winners: old(self)@.awards() }]);
        }
        let ghost told = message_views(msgs@);
        let ghost more = message_views(updates@);
        let ghost last = message_views(gone@);
        msgs.append(&mut updates);
        msgs.append(&mut gone);
        proof {
            assert(message_views(msgs@) =~= told + more + last);
        }
        let ghost told = message_views(msgs@);
        let funded = self.keep_ids(walk, SeatFilter::Funded);
        if funded.len() == 1 {
            proof {
                lemma_keep_members(self@.players, walk@, SeatFilter::Funded);
                assert(SeatFilter::Funded.accepts(self@.players, funded@[0]));
            }
            match self.players.get(&funded[0]) {
                Some(p) => {
                    msgs.push(ServerMessage::GameOver { winner_id: p.id, winner_name: p.name.clone() });
                },
                None => {
                    proof {
                        assert(false);
                    }
                },
            }
            self.game_started = false;
            self.phase = GamePhase::Lobby;
            proof {
                assert(message_views(msgs@) =~= told + seq![
                    ServerMessageView::GameOver {
                        winner_id: self@.players[funded@[0]].id,
                        winner_name: self@.players[funded@[0]].name@,
                    },
                ]);
            }
        }
        self.pot = 0;
        proof {
            assert(message_views(msgs@) =~= old(self)@.resolve_messages(walk@));
        }
        msgs
    }

    /// Resolves the hand: finds the winners, pays them, and says what the
    /// table is to be told. The players are told in the order in which the
    /// player table is walked.
    pub fn resolve_hand(&mut self) -> (msgs: Vec<ServerMessage>)
        requires
            old(self)@.wf(),
        ensures
            exists|walk: Seq<u32>|
                is_walk(walk, old(self)@.players) && final(self)@ == old(self)@.after_resolve(walk) && message_views(
                    msgs@,
                ) == old(self)@.resolve_messages(walk),
            final(self)@.wf(),
            final(self)@.chips_in_play() <= old(self)@.chips_in_play(),
            final(self)@.pot == 0,
            old(self)@.seats_wf() ==> final(self)@.seats_wf(),
    {
        let walk = self.player_ids();
        self.resolve_hand_in(&walk)
    }
}

} // verus!
