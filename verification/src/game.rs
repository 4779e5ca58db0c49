//! One table of no-limit Texas Hold'em: the players, the betting state of
//! the hand, and the operations that move it on.

use vstd::prelude::*;
use std::collections::HashMap;
use std::time::Instant;
use vstd::std_specs::iter::IteratorSpec;
use crate::cards::{fresh_deck, get_all_cards, Board, Card};
use crate::random::{clock_now, seconds_since, shuffle_cards, thread_rng};
use crate::protocol::{card_infos, cards_to_infos, message_views, BlindConfig, PlayerAction, ServerMessage, ServerMessageView};
use vstd::arithmetic::div_mod::{lemma_add_mod_noop, lemma_add_mod_noop_right, lemma_mod_add_multiples_vanish, lemma_small_mod};

verus! {

broadcast use vstd::std_specs::hash::group_hash_axioms;

/// Seconds a player has for one turn before the server acts for them.
pub const TURN_TIMEOUT_SECS: u32 = 30;

/// A player's standing in the current hand.
#[derive(Debug, Clone, Copy, PartialEq, Eq, Structural)]
pub enum PlayerStatus {
    /// Not yet in a hand.
    Waiting,
    /// Still to act in this hand.
    Active,
    /// Folded this hand.
    Folded,
    /// All chips are in.
    AllIn,
    /// Out of chips.
    Out,
}

/// A seated player.
#[derive(Debug)]
pub struct Player {
    pub id: u32,
    pub name: String,
    pub chips: u32,
    pub status: PlayerStatus,
    pub hole_cards: Option<(Card, Card)>,
    /// What the player has bet in the current betting round.
    pub current_bet: u32,
    /// Whether the server acts for the player at each turn.
    pub sitting_out: bool,
}

impl Clone for Player {
    fn clone(&self) -> (p: Player)
        ensures
            p == *self,
    {
        Player {
            id: self.id,
            name: self.name.clone(),
            chips: self.chips,
            status: self.status,
            hole_cards: self.hole_cards,
            current_bet: self.current_bet,
            sitting_out: self.sitting_out,
        }
    }
}

impl Player {
    /// Still in the hand: to act, or all-in.
    pub open spec fn in_hand(self) -> bool {
        self.status == PlayerStatus::Active || self.status == PlayerStatus::AllIn
    }
}

/// The phase of the game.
#[derive(Debug, Clone, Copy, PartialEq, Eq, Structural)]
pub enum GamePhase {
    Lobby,
    PreFlop,
    Flop,
    Turn,
    River,
    Showdown,
}

/// The state of one table.
pub struct GameState {
    pub players: HashMap<u32, Player>,
    /// The seats, by player ID, in the order of play.
    pub player_order: Vec<u32>,
    pub next_player_id: u32,
    pub game_started: bool,
    pub phase: GamePhase,
    pub hand_number: u32,
    pub dealer_index: usize,
    pub current_player_index: usize,
    pub pot: u32,
    /// The bet that a player has to match.
    pub current_bet: u32,
    pub min_raise: u32,
    pub small_blind: u32,
    pub big_blind: u32,
    pub deck: Vec<Card>,
    pub community_cards: Vec<Card>,
    /// The seat of the player who raised last.
    pub last_raiser_index: Option<usize>,
    /// Whether the big blind may still act before the flop.
    pub big_blind_option: bool,
    /// The seat that acted first in this betting round.
    pub first_actor_index: Option<usize>,
    /// Whether anybody has acted in this betting round.
    pub has_acted_this_round: bool,
    pub blind_config: BlindConfig,
    /// When the blinds were last raised, or the game started.
    pub last_blind_increase: Option<Instant>,
    /// The number of big blinds a player starts with.
    pub starting_bbs: u32,
    /// Whether players may join while the game runs.
    pub allow_late_entry: bool,
    /// The first player who joined; 0 before anybody has.
    pub host_id: u32,
    /// The chips a late player gets, fixed when the game starts.
    pub starting_chips: u32,
}

/// The state of a table as contracts see it.
pub struct Table {
    pub players: Map<u32, Player>,
    pub order: Seq<u32>,
    pub next_player_id: u32,
    pub game_started: bool,
    pub phase: GamePhase,
    pub hand_number: u32,
    pub dealer_index: usize,
    pub current_player_index: usize,
    pub pot: u32,
    pub current_bet: u32,
    pub min_raise: u32,
    pub small_blind: u32,
    pub big_blind: u32,
    pub deck: Seq<Card>,
    pub community_cards: Seq<Card>,
    pub last_raiser_index: Option<usize>,
    pub big_blind_option: bool,
    pub first_actor_index: Option<usize>,
    pub has_acted_this_round: bool,
    pub blind_config: BlindConfig,
    pub last_blind_increase: Option<Instant>,
    pub starting_bbs: u32,
    pub allow_late_entry: bool,
    pub host_id: u32,
    pub starting_chips: u32,
}

impl View for GameState {
    type V = Table;

    open spec fn view(&self) -> Table {
        Table {
            players: self.players@,
            order: self.player_order@,
            next_player_id: self.next_player_id,
            game_started: self.game_started,
            phase: self.phase,
            hand_number: self.hand_number,
            dealer_index: self.dealer_index,
            current_player_index: self.current_player_index,
            pot: self.pot,
            current_bet: self.current_bet,
            min_raise: self.min_raise,
            small_blind: self.small_blind,
            big_blind: self.big_blind,
            deck: self.deck@,
            community_cards: self.community_cards@,
            last_raiser_index: self.last_raiser_index,
            big_blind_option: self.big_blind_option,
            first_actor_index: self.first_actor_index,
            has_acted_this_round: self.has_acted_this_round,
            blind_config: self.blind_config,
            last_blind_increase: self.last_blind_increase,
            starting_bbs: self.starting_bbs,
            allow_late_entry: self.allow_late_entry,
            host_id: self.host_id,
            starting_chips: self.starting_chips,
        }
    }
}

/// The chips of the players with an ID below `n`.
pub open spec fn chips_below(players: Map<u32, Player>, n: int) -> int
    decreases n,
{
    if n <= 0 {
        0
    } else {
        chips_below(players, n - 1) + (if players.contains_key((n - 1) as u32) {
            players[(n - 1) as u32].chips as int
        } else {
            0
        })
    }
}

/// The chips of all players together.
pub open spec fn total_chips(players: Map<u32, Player>) -> int {
    chips_below(players, 0x1_0000_0000)
}

/// The current-round bets of the players with an ID below `n`.
pub open spec fn bets_below(players: Map<u32, Player>, n: int) -> int
    decreases n,
{
    if n <= 0 {
        0
    } else {
        bets_below(players, n - 1) + (if players.contains_key((n - 1) as u32) {
            players[(n - 1) as u32].current_bet as int
        } else {
            0
        })
    }
}

/// The current-round bets of all players together.
pub open spec fn total_bets(players: Map<u32, Player>) -> int {
    bets_below(players, 0x1_0000_0000)
}

/// `ids` names each player of `players` once: an order in which to walk them.
pub open spec fn is_walk(ids: Seq<u32>, players: Map<u32, Player>) -> bool {
    ids.no_duplicates() && ids.to_set() == players.dom()
}

impl Table {
    /// A table without players, in the lobby: the blinds are 10 and 20,
    /// stacks are 50 big blinds, the blinds do not rise, and nobody may
    /// join late.
    pub open spec fn fresh() -> Table {
        Table {
            players: Map::<u32, Player>::empty(),
            order: Seq::<u32>::empty(),
            next_player_id: 1,
            game_started: false,
            phase: GamePhase::Lobby,
            hand_number: 0,
            dealer_index: 0,
            current_player_index: 0,
            pot: 0,
            current_bet: 0,
            min_raise: 0,
            small_blind: 10,
            big_blind: 20,
            deck: Seq::<Card>::empty(),
            community_cards: Seq::<Card>::empty(),
            last_raiser_index: None,
            big_blind_option: false,
            first_actor_index: None,
            has_acted_this_round: false,
            blind_config: BlindConfig { interval_secs: 0, increase_percent: 0 },
            last_blind_increase: None,
            starting_bbs: 50,
            allow_late_entry: false,
            host_id: 0,
            starting_chips: 0,
        }
    }

    /// The player `id` is seated and still to act.
    pub open spec fn is_active(self, id: u32) -> bool {
        self.players.contains_key(id) && self.players[id].status == PlayerStatus::Active
    }

    /// Seat `i` exists and its player is still to act.
    pub open spec fn seat_active(self, i: int) -> bool {
        0 <= i < self.order.len() && self.is_active(self.order[i])
    }

    /// The chips at the table: those of the players and the pot.
    pub open spec fn chips_in_play(self) -> int {
        total_chips(self.players) + self.pot
    }

    /// The chips at the table fit the machine's numbers.
    pub open spec fn wf(self) -> bool {
        self.chips_in_play() <= u32::MAX
    }

    /// No player's stack and bet together exceed the machine's numbers.
    pub open spec fn bets_fit(self) -> bool {
        forall|id: u32| #[trigger]
            self.players.contains_key(id) ==> self.players[id].chips + self.players[id].current_bet <= u32::MAX
    }

    /// The ID of the player whose turn it is.
    pub open spec fn current_player_id(self) -> Option<u32> {
        if self.current_player_index < self.order.len() {
            Some(self.order[self.current_player_index as int])
        } else {
            None
        }
    }

    /// The seats of the players who are still to act, by ID, in seat order.
    pub open spec fn actionable(self) -> Seq<u32> {
        self.order.filter(|id: u32| self.is_active(id))
    }

    /// How many players are still in the hand.
    pub open spec fn in_hand_count(self) -> nat {
        self.players.dom().filter(|id: u32| self.players[id].in_hand()).len()
    }

    /// What `player_id` still has to put in to match the current bet.
    pub open spec fn to_call(self, player_id: u32) -> u32 {
        if self.current_bet >= self.players[player_id].current_bet {
            (self.current_bet - self.players[player_id].current_bet) as u32
        } else {
            0
        }
    }

    /// The actions open to `player_id`: none unless the player is seated
    /// and still to act; then Fold, Check or Call, Raise and AllIn as the
    /// stack allows.
    pub open spec fn valid_actions(self, player_id: u32) -> Seq<PlayerAction> {
        if !self.is_active(player_id) {
            Seq::<PlayerAction>::empty()
        } else {
            let p = self.players[player_id];
            let to_call = self.to_call(player_id);
            seq![PlayerAction::Fold] + (if to_call == 0 {
                seq![PlayerAction::Check]
            } else if p.chips >= to_call {
                seq![PlayerAction::Call]
            } else {
                Seq::<PlayerAction>::empty()
            }) + (if p.chips > to_call {
                seq![PlayerAction::Raise]
            } else {
                Seq::<PlayerAction>::empty()
            }) + (if p.chips > 0 {
                seq![PlayerAction::AllIn]
            } else {
                Seq::<PlayerAction>::empty()
            })
        }
    }

    /// The board that the community cards make: a flop once there are
    /// three, then the turn and the river card.
    pub open spec fn board(self) -> Board {
        let cards = self.community_cards;
        Board {
            flop: if cards.len() >= 3 {
                Some((cards[0], cards[1], cards[2]))
            } else {
                None
            },
            turn: if cards.len() >= 4 {
                Some(cards[3])
            } else {
                None
            },
            river: if cards.len() >= 5 {
                Some(cards[4])
            } else {
                None
            },
        }
    }
}

impl Table {
    /// The player that joins next under `name` with `chips`.
    pub open spec fn new_player(self, name: String, chips: u32) -> Player {
        Player {
            id: self.next_player_id,
            name,
            chips,
            status: PlayerStatus::Waiting,
            hole_cards: None,
            current_bet: 0,
            sitting_out: false,
        }
    }

    /// The table after `p` took the last seat. The first player to be
    /// seated becomes the host.
    pub open spec fn with_player(self, p: Player) -> Table {
        Table {
            players: self.players.insert(p.id, p),
            order: self.order.push(p.id),
            next_player_id: (self.next_player_id + 1) as u32,
            host_id: if self.host_id == 0 {
                p.id
            } else {
                self.host_id
            },
            ..self
        }
    }

    /// The table without the player `id` and without that player's seat.
    pub open spec fn without_player(self, id: u32) -> Table {
        Table {
            players: self.players.remove(id),
            order: keep(self.players, self.order, SeatFilter::Except(id)),
            ..self
        }
    }

    /// The table after the player `id`, if seated, sat out or back in.
    pub open spec fn with_sitting(self, id: u32, out: bool) -> Table {
        if self.players.contains_key(id) {
            Table { players: self.players.insert(id, Player { sitting_out: out, ..self.players[id] }), ..self }
        } else {
            self
        }
    }

    /// The seat after seat `i`, the first seat following the last.
    pub open spec fn seat_after(self, i: int) -> int {
        (i + 1) % (self.order.len() as int)
    }

    /// The first seat, among `steps` seats from seat `s` on and round the
    /// table, whose player is still to act.
    pub open spec fn first_active_from(self, s: int, steps: nat) -> Option<int>
        decreases steps,
    {
        if steps == 0 {
            None
        } else if self.seat_active(s) {
            Some(s)
        } else {
            self.first_active_from(self.seat_after(s), (steps - 1) as nat)
        }
    }

    /// The seat whose turn comes after the current one: the next seat round
    /// the table whose player is still to act; the current seat where
    /// nobody is.
    pub open spec fn next_seat(self) -> int {
        match self.first_active_from(self.seat_after(self.current_player_index as int), self.order.len()) {
            Some(i) => i,
            None => self.current_player_index as int,
        }
    }

    /// A player who is still to act has bet less than the current bet.
    pub open spec fn has_unmatched_bet(self) -> bool {
        exists|i: int|
            0 <= i < self.order.len() && self.is_active(#[trigger] self.order[i])
                && self.players[self.order[i]].current_bet < self.current_bet
    }

    /// The seat at which the round ends when nobody has raised: the seat
    /// that acted first, or the next seat after it whose player is still to
    /// act.
    pub open spec fn round_end_seat(self, first: int) -> int {
        match self.first_active_from(first, self.order.len()) {
            Some(i) => i,
            None => first % (self.order.len() as int),
        }
    }

    /// Whether the betting round is over: nobody is left to act, or at most
    /// one player is left in the hand; else every bet is matched, the big
    /// blind has had its option, and the action has come back to the last
    /// raiser or, without a raise, to the seat that acted first.
    pub open spec fn betting_complete(self) -> bool {
        if keep(self.players, self.order, SeatFilter::Active).len() == 0 {
            true
        } else if self.in_hand_count() <= 1 {
            true
        } else if self.has_unmatched_bet() {
            false
        } else if self.phase == GamePhase::PreFlop && self.big_blind_option {
            false
        } else if self.last_raiser_index is Some {
            let raiser = self.last_raiser_index->Some_0;
            !(self.seat_active(raiser as int) && self.current_player_index != raiser)
        } else if !self.has_acted_this_round {
            false
        } else if self.first_actor_index is Some {
            self.current_player_index == self.round_end_seat(self.first_actor_index->Some_0 as int)
        } else {
            true
        }
    }
}

/// Why an action was refused.
#[derive(Debug, Clone, Copy, PartialEq, Eq, Structural)]
pub enum ActionError {
    /// No hand is being played.
    GameNotStarted,
    /// It is another player's turn.
    NotYourTurn,
    /// The action is not among the player's valid actions.
    InvalidAction,
    /// The player is not seated.
    PlayerNotFound,
    /// There is a bet to call.
    CannotCheck,
    /// The raise asks for more chips than the player has.
    NotEnoughChips { have: u32, need: u64 },
    /// The raise is below the minimum and not an all-in.
    BelowMinRaise { min_raise: u32 },
}

impl Table {
    /// Why the action is refused, or nothing where it is accepted: the game
    /// runs, it is the player's turn, the action is among the valid ones,
    /// and a raise is covered by the stack and either reaches the minimum
    /// or takes the whole stack.
    pub open spec fn action_error(self, player_id: u32, action: PlayerAction, amount: u32) -> Option<ActionError> {
        if !self.game_started {
            Some(ActionError::GameNotStarted)
        } else if self.current_player_id() != Some(player_id) {
            Some(ActionError::NotYourTurn)
        } else if !self.valid_actions(player_id).contains(action) {
            Some(ActionError::InvalidAction)
        } else if action == PlayerAction::Raise && self.to_call(player_id) + amount > self.players[player_id].chips {
            Some(
                ActionError::NotEnoughChips {
                    have: self.players[player_id].chips,
                    need: (self.to_call(player_id) + amount) as u64,
                },
            )
        } else if action == PlayerAction::Raise && amount < self.min_raise && self.to_call(player_id) + amount
            < self.players[player_id].chips {
            Some(ActionError::BelowMinRaise { min_raise: self.min_raise })
        } else {
            None
        }
    }

    /// The chips that an accepted action moves from the player to the pot.
    pub open spec fn chips_moved(self, player_id: u32, action: PlayerAction, amount: u32) -> int {
        let p = self.players[player_id];
        match action {
            PlayerAction::Fold => 0,
            PlayerAction::Check => 0,
            PlayerAction::Call => if self.to_call(player_id) <= p.chips {
                self.to_call(player_id) as int
            } else {
                p.chips as int
            },
            PlayerAction::Raise => self.to_call(player_id) + amount,
            PlayerAction::AllIn => p.chips as int,
        }
    }

    /// The acting player after an accepted action.
    pub open spec fn player_after_action(self, player_id: u32, action: PlayerAction, amount: u32) -> Player {
        let p = self.players[player_id];
        let moved = self.chips_moved(player_id, action, amount);
        match action {
            PlayerAction::Fold => Player { status: PlayerStatus::Folded, ..p },
            PlayerAction::Check => p,
            _ => Player {
                chips: (p.chips - moved) as u32,
                current_bet: (p.current_bet + moved) as u32,
                status: if p.chips - moved == 0 {
                    PlayerStatus::AllIn
                } else {
                    p.status
                },
                ..p
            },
        }
    }

    /// The table after an accepted action, before the turn moves on.
    pub open spec fn after_bet(self, player_id: u32, action: PlayerAction, amount: u32) -> Table {
        let p = self.player_after_action(player_id, action, amount);
        let moved = self.chips_moved(player_id, action, amount);
        let seat = self.current_player_index;
        let base = Table {
            players: self.players.insert(player_id, p),
            pot: (self.pot + moved) as u32,
            has_acted_this_round: true,
            ..self
        };
        match action {
            PlayerAction::Fold => base,
            PlayerAction::Check => if self.phase == GamePhase::PreFlop && self.big_blind_option {
                Table { big_blind_option: false, last_raiser_index: None, ..base }
            } else {
                base
            },
            PlayerAction::Call => base,
            PlayerAction::Raise => Table {
                current_bet: p.current_bet,
                min_raise: self.big_blind,
                last_raiser_index: Some(seat),
                big_blind_option: false,
                ..base
            },
            PlayerAction::AllIn => if p.current_bet > self.current_bet {
                Table { current_bet: p.current_bet, last_raiser_index: Some(seat), ..base }
            } else {
                base
            },
        }
    }

    /// The table after an accepted action: the bet is made and the turn has
    /// moved to the next player who is still to act.
    pub open spec fn after_action(self, player_id: u32, action: PlayerAction, amount: u32) -> Table {
        let bet = self.after_bet(player_id, action, amount);
        Table { current_player_index: bet.next_seat() as usize, ..bet }
    }

    /// What an accepted action tells the table: the action with the chips
    /// it moved, and the pot.
    pub open spec fn action_messages(self, player_id: u32, action: PlayerAction, amount: u32) -> Seq<
        ServerMessageView,
    > {
        seq![
            ServerMessageView::PlayerActed {
                player_id,
                action,
                amount: if action == PlayerAction::Fold || action == PlayerAction::Check {
                    None
                } else {
                    Some(self.chips_moved(player_id, action, amount) as u32)
                },
            },
            ServerMessageView::PotUpdate { pot: self.after_bet(player_id, action, amount).pot },
        ]
    }
}

/// An accepted action keeps the chips at the table: what leaves the
/// player's stack is in the pot and in the player's bet. The pot does not
/// shrink, and the numbers stay within the machine's.
pub proof fn lemma_action_conserves_chips(t: Table, player_id: u32, action: PlayerAction, amount: u32)
    requires
        t.wf(),
        t.bets_fit(),
        t.action_error(player_id, action, amount) is None,
    ensures
        0 <= t.chips_moved(player_id, action, amount) <= t.players[player_id].chips,
        t.after_action(player_id, action, amount).chips_in_play() == t.chips_in_play(),
        t.after_action(player_id, action, amount).pot == t.pot + t.chips_moved(player_id, action, amount),
        total_chips(t.after_action(player_id, action, amount).players) == total_chips(t.players) - t.chips_moved(
            player_id,
            action,
            amount,
        ),
        total_bets(t.after_action(player_id, action, amount).players) == total_bets(t.players) + t.chips_moved(
            player_id,
            action,
            amount,
        ),
        t.after_action(player_id, action, amount).wf(),
        t.after_action(player_id, action, amount).bets_fit(),
{
    let p = t.player_after_action(player_id, action, amount);
    assert(t.valid_actions(player_id).len() > 0);
    assert(t.is_active(player_id));
    lemma_total_chips_insert(t.players, player_id, p);
    lemma_bets_below_insert(t.players, player_id, p, 0x1_0000_0000);
    lemma_valid_action_meaning(t, player_id);
}

/// An accepted action that moves no chips keeps the sum of the stacks, the
/// pot and the bets of the round; an action that moves chips raises that
/// sum by what it moves, since a bet counts in the pot at once.
pub proof fn lemma_action_round_sum(t: Table, player_id: u32, action: PlayerAction, amount: u32)
    requires
        t.wf(),
        t.bets_fit(),
        t.action_error(player_id, action, amount) is None,
    ensures
        t.after_action(player_id, action, amount).chips_in_play() + total_bets(
            t.after_action(player_id, action, amount).players,
        ) == t.chips_in_play() + total_bets(t.players) + t.chips_moved(player_id, action, amount),
        t.chips_moved(player_id, action, amount) == 0 ==> t.after_action(player_id, action, amount).chips_in_play()
            + total_bets(t.after_action(player_id, action, amount).players) == t.chips_in_play() + total_bets(
            t.players,
        ),
{
    lemma_action_conserves_chips(t, player_id, action, amount);
}

/// What it means for each action to be among the valid ones.
pub proof fn lemma_valid_action_meaning(t: Table, player_id: u32)
    ensures
        t.valid_actions(player_id).contains(PlayerAction::Fold) <==> t.is_active(player_id),
        t.valid_actions(player_id).contains(PlayerAction::Check) <==> t.is_active(player_id) && t.to_call(player_id)
            == 0,
        t.valid_actions(player_id).contains(PlayerAction::Call) <==> t.is_active(player_id) && 0 < t.to_call(
            player_id,
        ) <= t.players[player_id].chips,
        t.valid_actions(player_id).contains(PlayerAction::Raise) <==> t.is_active(player_id)
            && t.players[player_id].chips > t.to_call(player_id),
        t.valid_actions(player_id).contains(PlayerAction::AllIn) <==> t.is_active(player_id)
            && t.players[player_id].chips > 0,
{
    let v = t.valid_actions(player_id);
    if t.is_active(player_id) {
        let p = t.players[player_id];
        let to_call = t.to_call(player_id);
        let a = seq![PlayerAction::Fold];
        let b = if to_call == 0 {
            seq![PlayerAction::Check]
        } else if p.chips >= to_call {
            seq![PlayerAction::Call]
        } else {
            Seq::<PlayerAction>::empty()
        };
        let c = if p.chips > to_call {
            seq![PlayerAction::Raise]
        } else {
            Seq::<PlayerAction>::empty()
        };
        let d = if p.chips > 0 {
            seq![PlayerAction::AllIn]
        } else {
            Seq::<PlayerAction>::empty()
        };
        assert(v == a + b + c + d);
        assert forall|x: PlayerAction| v.contains(x) <==> a.contains(x) || b.contains(x) || c.contains(x)
            || d.contains(x) by {
            if v.contains(x) {
                let i = choose|i: int| 0 <= i < v.len() && v[i] == x;
                if i < a.len() {
                    assert(a[i] == x);
                } else if i < a.len() + b.len() {
                    assert(b[i - a.len()] == x);
                } else if i < a.len() + b.len() + c.len() {
                    assert(c[i - a.len() - b.len()] == x);
                } else {
                    assert(d[i - a.len() - b.len() - c.len()] == x);
                }
            }
            if a.contains(x) {
                let i = choose|i: int| 0 <= i < a.len() && a[i] == x;
                assert(v[i] == x);
            }
            if b.contains(x) {
                let i = choose|i: int| 0 <= i < b.len() && b[i] == x;
                assert(v[a.len() + i] == x);
            }
            if c.contains(x) {
                let i = choose|i: int| 0 <= i < c.len() && c[i] == x;
                assert(v[a.len() + b.len() + i] == x);
            }
            if d.contains(x) {
                let i = choose|i: int| 0 <= i < d.len() && d[i] == x;
                assert(v[a.len() + b.len() + c.len() + i] == x);
            }
        }
        assert(a[0] == PlayerAction::Fold);
        if to_call == 0 {
            assert(b[0] == PlayerAction::Check);
        } else if p.chips >= to_call {
            assert(b[0] == PlayerAction::Call);
        }
        if p.chips > to_call {
            assert(c[0] == PlayerAction::Raise);
        }
        if p.chips > 0 {
            assert(d[0] == PlayerAction::AllIn);
        }
    }
}

/// A raise that takes the player's whole stack is accepted whatever the
/// minimum raise is.
pub proof fn lemma_all_in_raise_accepted(t: Table, player_id: u32, amount: u32)
    requires
        t.game_started,
        t.current_player_id() == Some(player_id),
        t.is_active(player_id),
        t.to_call(player_id) + amount == t.players[player_id].chips,
        amount > 0,
    ensures
        t.action_error(player_id, PlayerAction::Raise, amount) is None,
{
    lemma_valid_action_meaning(t, player_id);
}

/// An action that is not among the player's valid actions is refused.
pub proof fn lemma_invalid_action_refused(t: Table, player_id: u32, action: PlayerAction, amount: u32)
    requires
        !t.valid_actions(player_id).contains(action),
    ensures
        t.action_error(player_id, action, amount) is Some,
{
}

/// The deck and the community cards after up to `k` cards went from the
/// end of the deck to the board; fewer where the deck runs out.
pub open spec fn deal_community(deck: Seq<Card>, community: Seq<Card>, k: nat) -> (Seq<Card>, Seq<Card>)
    decreases k,
{
    if k == 0 || deck.len() == 0 {
        (deck, community)
    } else {
        deal_community(deck.drop_last(), community.push(deck.last()), (k - 1) as nat)
    }
}

impl Table {
    /// The table with the bets of the round taken back and nobody having
    /// acted or raised.
    pub open spec fn with_round_reset(self) -> Table {
        Table {
            players: all_bets_cleared(self.players),
            current_bet: 0,
            last_raiser_index: None,
            big_blind_option: false,
            has_acted_this_round: false,
            ..self
        }
    }

    /// How many community cards the street after the current phase brings.
    pub open spec fn street_cards(self) -> nat {
        match self.phase {
            GamePhase::PreFlop => 3,
            GamePhase::Flop => 1,
            GamePhase::Turn => 1,
            _ => 0,
        }
    }

    /// The phase after the current one; Lobby and Showdown stay.
    pub open spec fn next_phase(self) -> GamePhase {
        match self.phase {
            GamePhase::PreFlop => GamePhase::Flop,
            GamePhase::Flop => GamePhase::Turn,
            GamePhase::Turn => GamePhase::River,
            GamePhase::River => GamePhase::Showdown,
            other => other,
        }
    }

    /// The table after the betting round ended and the next street was
    /// dealt: bets are taken back, the turn is with the first player after
    /// the dealer who is still to act, and the street's cards lie open.
    pub open spec fn after_advance(self) -> Table {
        let reset = self.with_round_reset();
        let start = self.seat_after(self.dealer_index as int);
        let seat = match reset.first_active_from(start, self.order.len()) {
            Some(i) => i,
            None => start,
        };
        let dealt = deal_community(self.deck, self.community_cards, self.street_cards());
        Table {
            current_player_index: seat as usize,
            first_actor_index: Some(seat as usize),
            phase: self.next_phase(),
            deck: dealt.0,
            community_cards: dealt.1,
            ..reset
        }
    }

    /// What the table is told when a street is dealt: all community cards,
    /// under the name of the street.
    pub open spec fn advance_messages(self) -> Seq<ServerMessageView> {
        let cards = card_infos(self.after_advance().community_cards);
        match self.phase {
            GamePhase::PreFlop => seq![ServerMessageView::CommunityCards { stage: "flop"@, cards }],
            GamePhase::Flop => seq![ServerMessageView::CommunityCards { stage: "turn"@, cards }],
            GamePhase::Turn => seq![ServerMessageView::CommunityCards { stage: "river"@, cards }],
            _ => Seq::<ServerMessageView>::empty(),
        }
    }
}

/// Taking the bets back keeps the chips, and lets stacks and bets fit.
pub proof fn lemma_round_reset_keeps_chips(t: Table)
    ensures
        total_chips(all_bets_cleared(t.players)) == total_chips(t.players),
        total_chips(all_readied(t.players)) == total_chips(t.players),
        t.after_advance().chips_in_play() == t.chips_in_play(),
        t.after_advance().pot == t.pot,
        t.after_advance().bets_fit(),
        t.wf() ==> t.after_advance().wf(),
{
    assert(all_bets_cleared(t.players).dom() =~= t.players.dom());
    assert(all_readied(t.players).dom() =~= t.players.dom());
    lemma_same_stacks(all_bets_cleared(t.players), t.players, 0x1_0000_0000);
    lemma_same_stacks(all_readied(t.players), t.players, 0x1_0000_0000);
}

/// A blind after it rose by `percent` percent, the rise rounded up.
pub open spec fn raised_blind(blind: u32, percent: u32) -> int {
    blind + (blind * percent + 99) / 100
}

/// The players and the deck after each of `ids` got two hole cards from the
/// end of the deck, one player after the other.
pub open spec fn deal_hole(players: Map<u32, Player>, deck: Seq<Card>, ids: Seq<u32>) -> (Map<u32, Player>, Seq<Card>)
    decreases ids.len(),
{
    if ids.len() == 0 {
        (players, deck)
    } else {
        let id = ids[0];
        let first = deck.last();
        let second = deck.drop_last().last();
        let dealt = if players.contains_key(id) {
            players.insert(id, Player { hole_cards: Some((first, second)), ..players[id] })
        } else {
            players
        };
        deal_hole(dealt, deck.drop_last().drop_last(), ids.drop_first())
    }
}

impl Table {
    /// The table after both blinds rose by the configured percentage.
    pub open spec fn with_raised_blinds(self, now: Instant) -> Table {
        Table {
            small_blind: raised_blind(self.small_blind, self.blind_config.increase_percent) as u32,
            big_blind: raised_blind(self.big_blind, self.blind_config.increase_percent) as u32,
            last_blind_increase: Some(now),
            ..self
        }
    }

    /// The table cleared for a new hand played with `deck`: the pot and the
    /// board are empty, every player is readied, and the seats of players
    /// without chips are gone.
    pub open spec fn with_fresh_hand(self, deck: Seq<Card>) -> Table {
        Table {
            hand_number: (self.hand_number + 1) as u32,
            phase: GamePhase::PreFlop,
            pot: 0,
            current_bet: 0,
            community_cards: Seq::<Card>::empty(),
            deck,
            players: all_readied(self.players),
            order: keep(all_readied(self.players), self.order, SeatFilter::Funded),
            ..self
        }
    }

    /// The table after the player `id`, if seated, posted a blind of
    /// `amount`, or of their whole stack where that is less; a player who
    /// posts their whole stack is all-in.
    pub open spec fn after_blind(self, id: u32, amount: u32) -> Table {
        if self.players.contains_key(id) {
            let p = self.players[id];
            let actual = if amount <= p.chips {
                amount
            } else {
                p.chips
            };
            Table {
                players: self.players.insert(
                    id,
                    Player {
                        chips: (p.chips - actual) as u32,
                        current_bet: actual,
                        status: if p.chips - actual == 0 {
                            PlayerStatus::AllIn
                        } else {
                            p.status
                        },
                        ..p
                    },
                ),
                pot: (self.pot + actual) as u32,
                ..self
            }
        } else {
            self
        }
    }

    /// The seat of the dealer in the hand that begins.
    pub open spec fn next_dealer(self) -> int {
        self.seat_after(self.dealer_index as int)
    }

    /// The seat of the small blind in the hand that begins.
    pub open spec fn next_small_blind(self) -> int {
        self.seat_after(self.next_dealer())
    }

    /// The seat of the big blind in the hand that begins.
    pub open spec fn next_big_blind(self) -> int {
        self.seat_after(self.next_small_blind())
    }

    /// The table after the button moved on by one seat and the two seats
    /// after it posted the blinds: the bet to match is the big blind, the
    /// turn is with the seat after the big blind, and the big blind counts
    /// as the last raiser who still has an option.
    pub open spec fn with_blinds_posted(self) -> Table {
        let small = self.next_small_blind();
        let big = self.next_big_blind();
        let first = self.seat_after(big);
        let posted = self.after_blind(self.order[small], self.small_blind).after_blind(self.order[big], self.big_blind);
        Table {
            dealer_index: self.next_dealer() as usize,
            current_bet: self.big_blind,
            min_raise: self.big_blind,
            current_player_index: first as usize,
            last_raiser_index: Some(big as usize),
            big_blind_option: true,
            first_actor_index: Some(first as usize),
            has_acted_this_round: false,
            ..posted
        }
    }

    /// The announcement of the hand that begins.
    pub open spec fn new_hand_message(self) -> ServerMessageView {
        ServerMessageView::NewHand {
            hand_number: self.hand_number,
            dealer_id: self.order[self.next_dealer()],
            small_blind_id: self.order[self.next_small_blind()],
            big_blind_id: self.order[self.next_big_blind()],
            small_blind: self.small_blind,
            big_blind: self.big_blind,
        }
    }

    /// The table after every player who is in the hand got two hole cards.
    pub open spec fn with_hole_cards(self) -> Table {
        let dealt = deal_hole(self.players, self.deck, keep(self.players, self.order, SeatFilter::InHand));
        Table { players: dealt.0, deck: dealt.1, ..self }
    }

    /// The table at the start of a hand that is played with `deck`; the
    /// blinds rise first where `raise` holds the moment of the rise. With
    /// fewer than two funded seats no blinds are posted and no cards dealt.
    pub open spec fn after_new_hand(self, raise: Option<Instant>, deck: Seq<Card>) -> Table {
        let priced = match raise {
            Some(now) => self.with_raised_blinds(now),
            None => self,
        };
        let fresh = priced.with_fresh_hand(deck);
        if fresh.order.len() < 2 {
            fresh
        } else {
            fresh.with_blinds_posted().with_hole_cards()
        }
    }

    /// What the table is told at the start of a hand: the new blinds where
    /// they rose, and the hand with its dealer and blinds where one begins.
    pub open spec fn new_hand_messages(self, raise: Option<Instant>, deck: Seq<Card>) -> Seq<ServerMessageView> {
        let priced = match raise {
            Some(now) => self.with_raised_blinds(now),
            None => self,
        };
        let fresh = priced.with_fresh_hand(deck);
        (if raise is Some {
            seq![ServerMessageView::BlindsIncreased { small_blind: priced.small_blind, big_blind: priced.big_blind }]
        } else {
            Seq::<ServerMessageView>::empty()
        }) + (if fresh.order.len() < 2 {
            Seq::<ServerMessageView>::empty()
        } else {
            seq![fresh.new_hand_message()]
        })
    }

    /// Whether the blinds rise before the next hand: rises are configured,
    /// there was an earlier rise or a start of the game to count from, and
    /// at least the interval has passed since. `elapsed` holds the whole
    /// seconds that have passed since that moment, where there is one.
    pub open spec fn rise_due(self, elapsed: Option<u64>) -> bool {
        &&& self.blind_config.spec_is_enabled()
        &&& self.last_blind_increase is Some
        &&& elapsed matches Some(secs) && secs >= self.blind_config.interval_secs
    }

    /// The moment of the rise of the blinds before the next hand: `now`
    /// where a rise is due after `elapsed`, nothing where none is.
    pub open spec fn raise_at(self, elapsed: Option<u64>, now: Instant) -> Option<Instant> {
        if self.rise_due(elapsed) {
            Some(now)
        } else {
            None
        }
    }

    /// What a hand needs of the machine's numbers: room for the hand
    /// number and for the raised blinds, all chips within the range, and
    /// two cards in the deck for every funded seat.
    pub open spec fn can_begin_hand(self, raise: bool, deck_len: nat) -> bool {
        &&& self.hand_number < u32::MAX
        &&& total_chips(self.players) <= u32::MAX
        &&& raise ==> raised_blind(self.small_blind, self.blind_config.increase_percent) <= u32::MAX
            && raised_blind(self.big_blind, self.blind_config.increase_percent) <= u32::MAX
        &&& 2 * keep(self.players, self.order, SeatFilter::Funded).len() <= deck_len
    }
}

/// The blinds rise before a hand exactly where a rise is due by the clock.
/// Then both rise by the configured percentage, the rise rounded up, the
/// clock of the blinds starts anew, and the table is told of the new blinds
/// before anything else. Where no rise is due the blinds and their clock
/// stay, and nobody is told of a rise. Either way a hand that begins is
/// announced and played with the blinds as they then stand.
pub proof fn lemma_blinds_rise_when_due(t: Table, elapsed: Option<u64>, now: Instant, deck: Seq<Card>)
    requires
        t.can_begin_hand(t.rise_due(elapsed), deck.len()),
    ensures
        ({
            let after = t.after_new_hand(t.raise_at(elapsed, now), deck);
            let msgs = t.new_hand_messages(t.raise_at(elapsed, now), deck);
            &&& t.rise_due(elapsed) ==> {
                &&& after.small_blind == raised_blind(t.small_blind, t.blind_config.increase_percent)
                &&& after.big_blind == raised_blind(t.big_blind, t.blind_config.increase_percent)
                &&& after.last_blind_increase == Some(now)
                &&& msgs.len() > 0
                &&& msgs[0] == (ServerMessageView::BlindsIncreased {
                    small_blind: after.small_blind,
                    big_blind: after.big_blind,
                })
            }
            &&& !t.rise_due(elapsed) ==> {
                &&& after.small_blind == t.small_blind
                &&& after.big_blind == t.big_blind
                &&& after.last_blind_increase == t.last_blind_increase
                &&& forall|i: int| 0 <= i < msgs.len() ==> !(#[trigger] msgs[i] is BlindsIncreased)
            }
            &&& after.order.len() >= 2 ==> {
                &&& after.current_bet == after.big_blind
                &&& after.min_raise == after.big_blind
                &&& msgs.len() > 0
                &&& msgs.last() is NewHand
                &&& msgs.last()->NewHand_small_blind == after.small_blind
                &&& msgs.last()->NewHand_big_blind == after.big_blind
            }
        }),
{
}

/// Posting a blind keeps the chips at the table.
pub proof fn lemma_blind_keeps_chips(t: Table, id: u32, amount: u32)
    requires
        t.wf(),
    ensures
        t.after_blind(id, amount).wf(),
        t.after_blind(id, amount).chips_in_play() == t.chips_in_play(),
        t.after_blind(id, amount).pot >= t.pot,
        t.after_blind(id, amount).players.dom() == t.players.dom(),
        t.players.contains_key(id) ==> t.after_blind(id, amount).pot - t.pot <= t.players[id].chips,
        total_chips(t.players) >= 0,
        t.players.contains_key(id) ==> t.players[id].chips <= total_chips(t.players),
{
    lemma_chips_below_nonnegative(t.players, 0x1_0000_0000);
    if t.players.contains_key(id) {
        let after = t.after_blind(id, amount);
        lemma_total_chips_insert(t.players, id, after.players[id]);
        assert(after.players.dom() =~= t.players.dom());
    }
}

/// A player whose stack is no more than the blind they post is all-in.
pub proof fn lemma_short_blind_is_all_in(t: Table, id: u32, amount: u32)
    requires
        t.players.contains_key(id),
        t.players[id].chips <= amount,
    ensures
        t.after_blind(id, amount).players[id].status == PlayerStatus::AllIn,
        t.after_blind(id, amount).players[id].chips == 0,
        t.after_blind(id, amount).players[id].current_bet == t.players[id].chips,
{
}

/// Dealing hole cards changes neither who is seated nor any stack, bet or
/// status, and takes two cards from the deck for each player dealt.
pub proof fn lemma_deal_hole_keeps(players: Map<u32, Player>, deck: Seq<Card>, ids: Seq<u32>)
    requires
        deck.len() >= 2 * ids.len(),
    ensures
        deal_hole(players, deck, ids).0.dom() == players.dom(),
        forall|id: u32|
            players.contains_key(id) ==> {
                &&& (#[trigger] deal_hole(players, deck, ids).0[id]).chips == players[id].chips
                &&& deal_hole(players, deck, ids).0[id].current_bet == players[id].current_bet
                &&& deal_hole(players, deck, ids).0[id].status == players[id].status
                &&& deal_hole(players, deck, ids).0[id].id == players[id].id
                &&& deal_hole(players, deck, ids).0[id].name == players[id].name
                &&& deal_hole(players, deck, ids).0[id].sitting_out == players[id].sitting_out
            },
        deal_hole(players, deck, ids).1 == deck.take(deck.len() - 2 * ids.len()),
    decreases ids.len(),
{
    if ids.len() > 0 {
        let id = ids[0];
        let dealt = if players.contains_key(id) {
            players.insert(id, Player { hole_cards: Some((deck.last(), deck.drop_last().last())), ..players[id] })
        } else {
            players
        };
        let rest = deck.drop_last().drop_last();
        lemma_deal_hole_keeps(dealt, rest, ids.drop_first());
        assert(dealt.dom() =~= players.dom());
        assert(rest.take(rest.len() - 2 * ids.drop_first().len()) =~= deck.take(deck.len() - 2 * ids.len()));
    } else {
        assert(deck.take(deck.len() as int) =~= deck);
    }
}

/// Two player tables that a filter judges alike keep the same seats.
pub proof fn lemma_keep_agree(a: Map<u32, Player>, b: Map<u32, Player>, order: Seq<u32>, f: SeatFilter)
    requires
        forall|id: u32| f.accepts(a, id) == f.accepts(b, id),
    ensures
        keep(a, order, f) == keep(b, order, f),
    decreases order.len(),
{
    if order.len() > 0 {
        lemma_keep_agree(a, b, order.drop_last(), f);
    }
}

/// Posting a blind leaves stacks and bets within the machine's numbers.
pub proof fn lemma_blind_keeps_bets_fit(t: Table, id: u32, amount: u32)
    requires
        t.bets_fit(),
    ensures
        t.after_blind(id, amount).bets_fit(),
{
}

/// The table cleared for a hand holds the chips of its players and nothing
/// in the pot.
pub proof fn lemma_fresh_hand_chips(t: Table, deck: Seq<Card>)
    ensures
        t.with_fresh_hand(deck).chips_in_play() == total_chips(t.players),
        t.with_fresh_hand(deck).bets_fit(),
        t.with_fresh_hand(deck).order == keep(t.players, t.order, SeatFilter::Funded),
        t.with_fresh_hand(deck).order.len() <= t.order.len(),
{
    lemma_round_reset_keeps_chips(t);
    lemma_keep_agree(all_readied(t.players), t.players, t.order, SeatFilter::Funded);
    lemma_keep_members(t.players, t.order, SeatFilter::Funded);
}

/// Dealing the hole cards keeps the chips, the stacks and the bets.
pub proof fn lemma_hole_cards_keep_chips(t: Table)
    requires
        t.deck.len() >= 2 * keep(t.players, t.order, SeatFilter::InHand).len(),
    ensures
        t.with_hole_cards().chips_in_play() == t.chips_in_play(),
        t.bets_fit() ==> t.with_hole_cards().bets_fit(),
        t.with_hole_cards().pot == t.pot,
{
    let ids = keep(t.players, t.order, SeatFilter::InHand);
    lemma_deal_hole_keeps(t.players, t.deck, ids);
    lemma_same_stacks(deal_hole(t.players, t.deck, ids).0, t.players, 0x1_0000_0000);
}

/// A search that finds a seat finds one whose player is still to act.
pub proof fn lemma_first_active_is_active(t: Table, s: int, steps: nat)
    ensures
        t.first_active_from(s, steps) matches Some(i) ==> t.seat_active(i),
    decreases steps,
{
    if steps > 0 && !t.seat_active(s) {
        lemma_first_active_from_unfold(t, s, steps);
        lemma_first_active_is_active(t, t.seat_after(s), (steps - 1) as nat);
    }
}

proof fn lemma_first_active_from_unfold(t: Table, s: int, steps: nat)
    requires
        steps > 0,
        !t.seat_active(s),
    ensures
        t.first_active_from(s, steps) == t.first_active_from(t.seat_after(s), (steps - 1) as nat),
{
}

/// A search over `steps` seats from seat `s` finds a seat where a player
/// who is still to act sits `d` seats further round the table, `d` below
/// `steps`.
pub proof fn lemma_first_active_found(t: Table, s: int, steps: nat, d: int)
    requires
        t.order.len() > 0,
        0 <= s < t.order.len(),
        0 <= d < steps,
        t.seat_active((s + d) % (t.order.len() as int)),
    ensures
        t.first_active_from(s, steps) is Some,
    decreases steps,
{
    let n = t.order.len() as int;
    if !t.seat_active(s) {
        if d == 0 {
            lemma_small_mod(s as nat, n as nat);
        } else {
            let next = t.seat_after(s);
            lemma_add_mod_noop_right(d - 1, s + 1, n);
            assert((next + (d - 1)) % n == (s + d) % n) by {
                assert(next == (s + 1) % n);
                assert((d - 1) + (s + 1) == s + d);
                assert(((d - 1) + ((s + 1) % n)) % n == ((d - 1) + (s + 1)) % n);
                assert(next + (d - 1) == (d - 1) + ((s + 1) % n));
            }
            lemma_first_active_from_unfold(t, s, steps);
            lemma_first_active_found(t, next, (steps - 1) as nat, d - 1);
        }
    }
}

/// The turn never passes to a player who has folded or is out while a
/// player who is still to act has a seat.
pub proof fn lemma_next_seat_active(t: Table)
    requires
        t.order.len() > 0,
        exists|i: int| t.seat_active(i),
    ensures
        t.seat_active(t.next_seat()),
{
    let n = t.order.len() as int;
    let j = choose|i: int| t.seat_active(i);
    let s = t.seat_after(t.current_player_index as int);
    let d = if j >= s {
        j - s
    } else {
        j - s + n
    };
    assert((s + d) % n == j) by {
        if j >= s {
            lemma_small_mod(j as nat, n as nat);
        } else {
            lemma_mod_add_multiples_vanish(j, n);
            lemma_small_mod(j as nat, n as nat);
            assert(s + d == n + j);
        }
    }
    lemma_first_active_found(t, s, n as nat, d);
    lemma_first_active_is_active(t, s, n as nat);
}

/// After an accepted action the turn is with a player who is still to act,
/// where there is one.
pub proof fn lemma_turn_after_action(t: Table, player_id: u32, action: PlayerAction, amount: u32)
    requires
        t.order.len() <= usize::MAX,
        t.action_error(player_id, action, amount) is None,
        exists|i: int| t.after_bet(player_id, action, amount).seat_active(i),
    ensures
        t.after_action(player_id, action, amount).seat_active(
            t.after_action(player_id, action, amount).current_player_index as int,
        ),
{
    let bet = t.after_bet(player_id, action, amount);
    lemma_next_seat_active(bet);
    let after = t.after_action(player_id, action, amount);
    assert(after.players == bet.players);
    assert(after.order == bet.order);
}

/// Seating a player adds their chips to the table.
pub proof fn lemma_with_player_chips(t: Table, p: Player)
    requires
        !t.players.contains_key(p.id),
    ensures
        t.with_player(p).chips_in_play() == t.chips_in_play() + p.chips,
{
    lemma_total_chips_insert(t.players, p.id, p);
}

/// Taking a player from the table takes their chips along.
pub proof fn lemma_without_player_chips(t: Table, id: u32)
    ensures
        t.without_player(id).chips_in_play() == t.chips_in_play() - (if t.players.contains_key(id) {
            t.players[id].chips as int
        } else {
            0
        }),
        t.wf() ==> t.without_player(id).wf(),
{
    lemma_chips_below_remove(t.players, id, 0x1_0000_0000);
}

/// Sitting out or in changes no stack.
pub proof fn lemma_with_sitting_chips(t: Table, id: u32, out: bool)
    ensures
        t.with_sitting(id, out).chips_in_play() == t.chips_in_play(),
        t.bets_fit() ==> t.with_sitting(id, out).bets_fit(),
{
    if t.players.contains_key(id) {
        lemma_total_chips_insert(t.players, id, Player { sitting_out: out, ..t.players[id] });
    }
}

/// The player with the bet of the round taken back.
pub open spec fn bet_cleared(p: Player) -> Player {
    Player { current_bet: 0, ..p }
}

/// The player as a hand begins: in the hand with chips, out without; no
/// hole cards and no bet yet.
pub open spec fn readied(p: Player) -> Player {
    Player {
        status: if p.chips > 0 {
            PlayerStatus::Active
        } else {
            PlayerStatus::Out
        },
        hole_cards: None,
        current_bet: 0,
        ..p
    }
}

/// All players with their bets taken back.
pub open spec fn all_bets_cleared(players: Map<u32, Player>) -> Map<u32, Player> {
    Map::new(|id: u32| players.contains_key(id), |id: u32| bet_cleared(players[id]))
}

/// All players readied for a hand.
pub open spec fn all_readied(players: Map<u32, Player>) -> Map<u32, Player> {
    Map::new(|id: u32| players.contains_key(id), |id: u32| readied(players[id]))
}

/// Two player tables with the same stacks hold the same chips.
pub proof fn lemma_same_stacks(a: Map<u32, Player>, b: Map<u32, Player>, n: int)
    requires
        a.dom() == b.dom(),
        forall|id: u32| a.contains_key(id) ==> a[id].chips == b[id].chips,
    ensures
        chips_below(a, n) == chips_below(b, n),
    decreases n,
{
    if n > 0 {
        lemma_same_stacks(a, b, n - 1);
    }
}

/// One player's chips are no more than all players' chips.
pub proof fn lemma_chips_below_bounds(players: Map<u32, Player>, id: u32, n: int)
    requires
        players.contains_key(id),
        0 <= n <= 0x1_0000_0000,
    ensures
        chips_below(players, n) >= 0,
        id < n ==> players[id].chips <= chips_below(players, n),
    decreases n,
{
    if n > 0 {
        lemma_chips_below_bounds(players, id, n - 1);
    }
}

/// Changing one player changes the total by the change of that player's
/// chips.
pub proof fn lemma_chips_below_insert(players: Map<u32, Player>, id: u32, p: Player, n: int)
    requires
        0 <= n <= 0x1_0000_0000,
    ensures
        chips_below(players.insert(id, p), n) == chips_below(players, n) + (if id < n {
            p.chips - (if players.contains_key(id) {
                players[id].chips as int
            } else {
                0
            })
        } else {
            0
        }),
    decreases n,
{
    if n > 0 {
        lemma_chips_below_insert(players, id, p, n - 1);
    }
}

/// Removing one player lowers the total by that player's chips.
pub proof fn lemma_chips_below_remove(players: Map<u32, Player>, id: u32, n: int)
    requires
        0 <= n <= 0x1_0000_0000,
    ensures
        chips_below(players.remove(id), n) == chips_below(players, n) - (if id < n && players.contains_key(id) {
            players[id].chips as int
        } else {
            0
        }),
    decreases n,
{
    if n > 0 {
        lemma_chips_below_remove(players, id, n - 1);
    }
}

/// The total after one player was replaced.
pub proof fn lemma_total_chips_insert(players: Map<u32, Player>, id: u32, p: Player)
    ensures
        total_chips(players.insert(id, p)) == total_chips(players) + p.chips - (if players.contains_key(id) {
            players[id].chips as int
        } else {
            0
        }),
        total_chips(players) >= 0,
        players.contains_key(id) ==> players[id].chips <= total_chips(players),
{
    lemma_chips_below_insert(players, id, p, 0x1_0000_0000);
    if players.contains_key(id) {
        lemma_chips_below_bounds(players, id, 0x1_0000_0000);
    } else {
        lemma_chips_below_nonnegative(players, 0x1_0000_0000);
    }
}

pub proof fn lemma_chips_below_nonnegative(players: Map<u32, Player>, n: int)
    ensures
        chips_below(players, n) >= 0,
    decreases n,
{
    if n > 0 {
        lemma_chips_below_nonnegative(players, n - 1);
    }
}

/// The bets after one player was replaced.
pub proof fn lemma_bets_below_insert(players: Map<u32, Player>, id: u32, p: Player, n: int)
    requires
        0 <= n <= 0x1_0000_0000,
    ensures
        bets_below(players.insert(id, p), n) == bets_below(players, n) + (if id < n {
            p.current_bet - (if players.contains_key(id) {
                players[id].current_bet as int
            } else {
                0
            })
        } else {
            0
        }),
    decreases n,
{
    if n > 0 {
        lemma_bets_below_insert(players, id, p, n - 1);
    }
}


/// A condition on the player of a seat.
#[derive(Debug, Clone, Copy)]
pub enum SeatFilter {
    /// Seated and still to act.
    Active,
    /// Seated and still in the hand.
    InHand,
    /// Seated and with chips.
    Funded,
    /// Seated, still in the hand, and holding hole cards.
    Showing,
    /// Seated, without chips, and not yet counted out.
    Eliminated,
    /// Seated and sitting out.
    SittingOut,
    /// Seated and folded.
    Folded,
    /// Seated and holding hole cards.
    Dealt,
    /// Any ID but this one.
    Except(u32),
}

impl SeatFilter {
    pub open spec fn accepts(self, players: Map<u32, Player>, id: u32) -> bool {
        match self {
            SeatFilter::Active => players.contains_key(id) && players[id].status == PlayerStatus::Active,
            SeatFilter::InHand => players.contains_key(id) && players[id].in_hand(),
            SeatFilter::Funded => players.contains_key(id) && players[id].chips > 0,
            SeatFilter::Showing => players.contains_key(id) && players[id].in_hand() && players[id].hole_cards is Some,
            SeatFilter::Eliminated => players.contains_key(id) && players[id].chips == 0 && players[id].status
                != PlayerStatus::Out,
            SeatFilter::SittingOut => players.contains_key(id) && players[id].sitting_out,
            SeatFilter::Folded => players.contains_key(id) && players[id].status == PlayerStatus::Folded,
            SeatFilter::Dealt => players.contains_key(id) && players[id].hole_cards is Some,
            SeatFilter::Except(other) => id != other,
        }
    }
}

/// The IDs of `order` that `f` accepts, in the order of `order`.
pub open spec fn keep(players: Map<u32, Player>, order: Seq<u32>, f: SeatFilter) -> Seq<u32>
    decreases order.len(),
{
    if order.len() == 0 {
        Seq::<u32>::empty()
    } else if f.accepts(players, order.last()) {
        keep(players, order.drop_last(), f).push(order.last())
    } else {
        keep(players, order.drop_last(), f)
    }
}

/// What is kept comes from the order and is accepted.
pub proof fn lemma_keep_members(players: Map<u32, Player>, order: Seq<u32>, f: SeatFilter)
    ensures
        keep(players, order, f).len() <= order.len(),
        forall|i: int|
            0 <= i < keep(players, order, f).len() ==> f.accepts(players, #[trigger] keep(players, order, f)[i])
                && order.contains(keep(players, order, f)[i]),
        forall|j: int|
            0 <= j < order.len() && f.accepts(players, order[j]) ==> keep(players, order, f).contains(#[trigger] order[j]),
    decreases order.len(),
{
    if order.len() > 0 {
        let init = order.drop_last();
        lemma_keep_members(players, init, f);
        let kept = keep(players, order, f);
        let sub = keep(players, init, f);
        assert forall|i: int| 0 <= i < kept.len() implies f.accepts(players, #[trigger] kept[i]) && order.contains(
            kept[i],
        ) by {
            if i < sub.len() {
                assert(kept[i] == sub[i]);
                let k = choose|k: int| 0 <= k < init.len() && init[k] == sub[i];
                assert(order[k] == kept[i]);
            } else {
                assert(order[order.len() - 1] == kept[i]);
            }
        }
        assert forall|j: int| 0 <= j < order.len() && f.accepts(players, order[j]) implies kept.contains(
            #[trigger] order[j],
        ) by {
            if j < init.len() {
                assert(init[j] == order[j]);
                let k = choose|k: int| 0 <= k < sub.len() && sub[k] == init[j];
                assert(kept[k] == order[j]);
            } else {
                assert(kept[kept.len() - 1] == order[j]);
            }
        }
    }
}

impl GameState {
    /// A table without players, with blinds 10 and 20 and stacks of 50 big
    /// blinds.
    pub fn new() -> (gs: GameState)
        ensures
            gs@ == Table::fresh(),
            gs@.wf(),
            gs@.bets_fit(),
            gs@.seats_wf(),
            gs@.chips_in_play() == 0,
    {
        let gs = GameState {
            players: HashMap::new(),
            player_order: Vec::new(),
            next_player_id: 1,
            game_started: false,
            phase: GamePhase::Lobby,
            hand_number: 0,
            dealer_index: 0,
            current_player_index: 0,
            pot: 0,
            current_bet: 0,
            min_raise: 0,
            small_blind: 10,
            big_blind: 20,
            deck: Vec::new(),
            community_cards: Vec::new(),
            last_raiser_index: None,
            big_blind_option: false,
            first_actor_index: None,
            has_acted_this_round: false,
            blind_config: BlindConfig { interval_secs: 0, increase_percent: 0 },
            last_blind_increase: None,
            starting_bbs: 50,
            allow_late_entry: false,
            host_id: 0,
            starting_chips: 0,
        };
        proof {
            lemma_chips_below_empty(0x1_0000_0000);
        }
        gs
    }

    /// The number of seated players.
    pub fn player_count(&self) -> (n: usize)
        ensures
            n == self@.players.len(),
    {
        self.players.len()
    }

    /// The IDs of the seated players, each once, in the order in which the
    /// player table is walked.
    pub fn player_ids(&self) -> (ids: Vec<u32>)
        ensures
            is_walk(ids@, self@.players),
    {
        let mut ids: Vec<u32> = Vec::new();
        for id in it: self.players.keys()
            invariant
                ids@.len() == it.index(),
                forall|j: int| 0 <= j < ids@.len() ==> ids@[j] == *it.seq()[j],
        {
            ids.push(*id);
        }
        proof {
            assert(ids@ =~= self.players.keys().remaining().unref());
        }
        ids
    }

    /// The ID of the player whose turn it is.
    pub fn current_player_id(&self) -> (id: Option<u32>)
        ensures
            id == self@.current_player_id(),
    {
        if self.current_player_index < self.player_order.len() {
            Some(self.player_order[self.current_player_index])
        } else {
            None
        }
    }

    /// Whether the player whose turn it is sits out.
    pub fn is_current_player_sitting_out(&self) -> (b: bool)
        ensures
            b == (self@.current_player_id() matches Some(id) && self@.players.contains_key(id)
                && self@.players[id].sitting_out),
    {
        match self.current_player_id() {
            Some(id) => match self.players.get(&id) {
                Some(p) => p.sitting_out,
                None => false,
            },
            None => false,
        }
    }

    fn seat_accepted(&self, id: u32, f: SeatFilter) -> (b: bool)
        ensures
            b == f.accepts(self@.players, id),
    {
        match f {
            SeatFilter::Except(other) => id != other,
            _ => match self.players.get(&id) {
                None => false,
                Some(p) => match f {
                    SeatFilter::Active => p.status == PlayerStatus::Active,
                    SeatFilter::InHand => p.status == PlayerStatus::Active || p.status == PlayerStatus::AllIn,
                    SeatFilter::Funded => p.chips > 0,
                    SeatFilter::Eliminated => p.chips == 0 && p.status != PlayerStatus::Out,
                    SeatFilter::SittingOut => p.sitting_out,
                    SeatFilter::Folded => p.status == PlayerStatus::Folded,
                    SeatFilter::Dealt => p.hole_cards.is_some(),
                    _ => (p.status == PlayerStatus::Active || p.status == PlayerStatus::AllIn)
                        && p.hole_cards.is_some(),
                },
            },
        }
    }

    /// The IDs of `ids` that `f` accepts, in the order of `ids`.
    pub fn keep_ids(&self, ids: &Vec<u32>, f: SeatFilter) -> (kept: Vec<u32>)
        ensures
            kept@ == keep(self@.players, ids@, f),
    {
        let mut kept: Vec<u32> = Vec::new();
        let mut i: usize = 0;
        while i < ids.len()
            invariant
                i <= ids.len(),
                kept@ == keep(self@.players, ids@.take(i as int), f),
            decreases ids.len() - i,
        {
            let id: u32 = ids[i];
            proof {
                assert(ids@.take(i + 1).drop_last() =~= ids@.take(i as int));
                assert(ids@.take(i + 1).last() == id);
            }
            if self.seat_accepted(id, f) {
                kept.push(id);
            }
            i = i + 1;
        }
        proof {
            assert(ids@.take(ids.len() as int) =~= ids@);
        }
        kept
    }

    /// The seats that `f` accepts, by ID, in seat order.
    pub fn keep_seats(&self, f: SeatFilter) -> (kept: Vec<u32>)
        ensures
            kept@ == keep(self@.players, self@.order, f),
    {
        self.keep_ids(&self.player_order, f)
    }

    /// The players who can still act, by ID, in seat order.
    pub fn actionable_players(&self) -> (ids: Vec<u32>)
        ensures
            ids@ == keep(self@.players, self@.order, SeatFilter::Active),
    {
        self.keep_seats(SeatFilter::Active)
    }

    /// How many players are still in the hand: to act, or all-in.
    pub fn active_player_count(&self) -> (n: usize)
        ensures
            n == self@.in_hand_count(),
    {
        let ids = self.player_ids();
        let ghost in_hand = |id: u32| self@.players[id].in_hand();
        let ghost mut kept: Seq<u32> = Seq::empty();
        let mut n: usize = 0;
        let mut i: usize = 0;
        while i < ids.len()
            invariant
                i <= ids.len(),
                is_walk(ids@, self@.players),
                n == kept.len(),
                n <= i,
                kept.no_duplicates(),
                forall|x: u32|
                    kept.contains(x) <==> (exists|j: int| 0 <= j < i && ids@[j] == x) && self@.players[x].in_hand(),
            decreases ids.len() - i,
        {
            let id: u32 = ids[i];
            proof {
                assert(ids@.contains(id));
                assert(ids@.to_set().contains(id));
            }
            let here = match self.players.get(&id) {
                Some(p) => p.status == PlayerStatus::Active || p.status == PlayerStatus::AllIn,
                None => false,
            };
            if here {
                proof {
                    let before = kept;
                    assert(!before.contains(id)) by {
                        if before.contains(id) {
                            let j = choose|j: int| 0 <= j < i && ids@[j] == id;
                            assert(ids@[j] == ids@[i as int]);
                        }
                    }
                    kept = kept.push(id);
                    assert forall|x: u32| kept.contains(x) <==> (exists|j: int| 0 <= j < i + 1 && ids@[j] == x)
                        && self@.players[x].in_hand() by {
                        if kept.contains(x) {
                            let k = choose|k: int| 0 <= k < kept.len() && kept[k] == x;
                            if k < before.len() {
                                assert(before[k] == x);
                                assert(before.contains(x));
                                let j = choose|j: int| 0 <= j < i && ids@[j] == x;
                                assert(0 <= j < i + 1 && ids@[j] == x);
                            } else {
                                assert(ids@[i as int] == x);
                            }
                        }
                        if (exists|j: int| 0 <= j < i + 1 && ids@[j] == x) && self@.players[x].in_hand() {
                            let j = choose|j: int| 0 <= j < i + 1 && ids@[j] == x;
                            if j < i {
                                assert(before.contains(x));
                                let k = choose|k: int| 0 <= k < before.len() && before[k] == x;
                                assert(kept[k] == x);
                            } else {
                                assert(kept[kept.len() - 1] == x);
                            }
                        }
                    }
                }
                n = n + 1;
            } else {
                proof {
                    assert forall|x: u32| kept.contains(x) <==> (exists|j: int| 0 <= j < i + 1 && ids@[j] == x)
                        && self@.players[x].in_hand() by {
                        if (exists|j: int| 0 <= j < i + 1 && ids@[j] == x) && self@.players[x].in_hand() {
                            let j = choose|j: int| 0 <= j < i + 1 && ids@[j] == x;
                            assert(j < i);
                        }
                    }
                }
            }
            i = i + 1;
        }
        proof {
            let target = self@.players.dom().filter(|id: u32| self@.players[id].in_hand());
            assert(kept.to_set() =~= target) by {
                assert forall|x: u32| kept.to_set().contains(x) <==> target.contains(x) by {
                    if target.contains(x) {
                        assert(ids@.to_set().contains(x));
                        assert(ids@.contains(x));
                        let j = choose|j: int| 0 <= j < ids@.len() && ids@[j] == x;
                        assert(kept.contains(x));
                    }
                    if kept.contains(x) {
                        let j = choose|j: int| 0 <= j < i && ids@[j] == x;
                        assert(ids@.contains(x));
                        assert(ids@.to_set().contains(x));
                    }
                }
            }
            kept.unique_seq_to_set();
        }
        n
    }

    /// Takes the top card of the deck.
    pub fn deal_card(&mut self) -> (card: Option<Card>)
        ensures
            card == (if old(self)@.deck.len() > 0 {
                Some(old(self)@.deck.last())
            } else {
                None
            }),
            final(self)@ == (Table {
                deck: if old(self)@.deck.len() > 0 {
                    old(self)@.deck.drop_last()
                } else {
                    old(self)@.deck
                },
                ..old(self)@
            }),
    {
        self.deck.pop()
    }

    /// Puts a fresh deck of 52 cards on the table, in random order.
    pub fn new_deck(&mut self)
        ensures
            final(self)@.deck.to_multiset() == crate::cards::fresh_deck().to_multiset(),
            final(self)@ == (Table { deck: final(self)@.deck, ..old(self)@ }),
    {
        let mut deck = get_all_cards();
        let mut rng = thread_rng();
        shuffle_cards(&mut deck, &mut rng);
        self.deck = deck;
    }

    /// The board that the community cards make.
    pub fn build_board(&self) -> (board: Board)
        ensures
            board == self@.board(),
    {
        let flop = if self.community_cards.len() >= 3 {
            Some((self.community_cards[0], self.community_cards[1], self.community_cards[2]))
        } else {
            None
        };
        let turn = if self.community_cards.len() >= 4 {
            Some(self.community_cards[3])
        } else {
            None
        };
        let river = if self.community_cards.len() >= 5 {
            Some(self.community_cards[4])
        } else {
            None
        };
        Board { flop, turn, river }
    }

    /// The actions open to a player.
    pub fn valid_actions(&self, player_id: u32) -> (actions: Vec<PlayerAction>)
        ensures
            actions@ == self@.valid_actions(player_id),
    {
        let mut actions: Vec<PlayerAction> = Vec::new();
        match self.players.get(&player_id) {
            None => {},
            Some(player) => {
                if player.status == PlayerStatus::Active {
                    actions.push(PlayerAction::Fold);
                    let to_call: u32 = if self.current_bet >= player.current_bet {
                        self.current_bet - player.current_bet
                    } else {
                        0
                    };
                    if to_call == 0 {
                        actions.push(PlayerAction::Check);
                    } else if player.chips >= to_call {
                        actions.push(PlayerAction::Call);
                    }
                    if player.chips > to_call {
                        actions.push(PlayerAction::Raise);
                    }
                    if player.chips > 0 {
                        actions.push(PlayerAction::AllIn);
                    }
                }
            },
        }
        assert(actions@ =~= self@.valid_actions(player_id));
        actions
    }
}

pub proof fn lemma_chips_below_empty(n: int)
    ensures
        chips_below(Map::<u32, Player>::empty(), n) == 0,
    decreases n,
{
    if n > 0 {
        lemma_chips_below_empty(n - 1);
    }
}

/// The seat after seat `i` of `n` seats.
fn next_index(i: usize, n: usize) -> (r: usize)
    requires
        n > 0,
    ensures
        r == (i + 1) % (n as int),
        r < n,
{
    let c: usize = i % n;
    proof {
        lemma_add_mod_noop(i as int, 1, n as int);
        if n > 1 {
            assert(1int % (n as int) == 1) by (nonlinear_arith)
                requires
                    n > 1,
            ;
        } else {
            assert((c + 1) % 1 == 0);
            assert((i + 1) % 1 == 0);
        }
        if c + 1 == n {
            assert((c + 1) % (n as int) == 0) by (nonlinear_arith)
                requires
                    c + 1 == n,
                    n > 0,
            ;
        } else {
            assert((c + 1) % (n as int) == c + 1) by (nonlinear_arith)
                requires
                    0 <= c + 1 < n,
            ;
        }
    }
    if c + 1 == n {
        0
    } else {
        c + 1
    }
}

impl GameState {
    /// Seats a new player with the default stack of `starting_bbs` big
    /// blinds.
    pub fn add_player(&mut self, name: String) -> (player: Player)
        requires
            old(self)@.next_player_id < u32::MAX,
            old(self)@.starting_bbs * old(self)@.big_blind <= u32::MAX,
        ensures
            player == old(self)@.new_player(name, (old(self)@.starting_bbs * old(self)@.big_blind) as u32),
            final(self)@ == old(self)@.with_player(player),
            !old(self)@.players.contains_key(player.id) ==> final(self)@.chips_in_play() == old(self)@.chips_in_play()
                + player.chips,
            old(self)@.bets_fit() ==> final(self)@.bets_fit(),
            old(self)@.seats_wf() ==> final(self)@.seats_wf() && !old(self)@.players.contains_key(player.id),
    {
        self.add_player_with_chips(name, None)
    }

    /// Seats a new player under the next ID, with `chips_override` chips
    /// where given and else the default stack.
    pub fn add_player_with_chips(&mut self, name: String, chips_override: Option<u32>) -> (player: Player)
        requires
            old(self)@.next_player_id < u32::MAX,
            chips_override is None ==> old(self)@.starting_bbs * old(self)@.big_blind <= u32::MAX,
        ensures
            player == old(self)@.new_player(
                name,
                match chips_override {
                    Some(chips) => chips,
                    None => (old(self)@.starting_bbs * old(self)@.big_blind) as u32,
                },
            ),
            final(self)@ == old(self)@.with_player(player),
            !old(self)@.players.contains_key(player.id) ==> final(self)@.chips_in_play() == old(self)@.chips_in_play()
                + player.chips,
            old(self)@.bets_fit() ==> final(self)@.bets_fit(),
            old(self)@.seats_wf() ==> final(self)@.seats_wf() && !old(self)@.players.contains_key(player.id),
    {
        let chips: u32 = match chips_override {
            Some(chips) => chips,
            None => self.starting_bbs * self.big_blind,
        };
        proof {
            let p = old(self)@.new_player(name, chips);
            if old(self)@.seats_wf() {
                crate::seats::lemma_seats_with_player(old(self)@, p);
            }
            if !old(self)@.players.contains_key(p.id) {
                lemma_with_player_chips(old(self)@, p);
            }
        }
        let id: u32 = self.next_player_id;
        let seated = Player {
            id,
            name: name.clone(),
            chips,
            status: PlayerStatus::Waiting,
            hole_cards: None,
            current_bet: 0,
            sitting_out: false,
        };
        let player = Player {
            id,
            name,
            chips,
            status: PlayerStatus::Waiting,
            hole_cards: None,
            current_bet: 0,
            sitting_out: false,
        };
        self.players.insert(id, seated);
        self.player_order.push(id);
        self.next_player_id = id + 1;
        if self.host_id == 0 {
            self.host_id = id;
        }
        player
    }

    /// Takes a player and their seat from the table.
    pub fn remove_player(&mut self, id: u32)
        ensures
            final(self)@ == old(self)@.without_player(id),
            old(self)@.wf() ==> final(self)@.wf(),
            old(self)@.bets_fit() ==> final(self)@.bets_fit(),
            old(self)@.seats_wf() ==> final(self)@.seats_wf(),
    {
        proof {
            lemma_without_player_chips(old(self)@, id);
            if old(self)@.seats_wf() {
                crate::seats::lemma_seats_without_player(old(self)@, id);
            }
        }
        let kept = self.keep_seats(SeatFilter::Except(id));
        proof {
            lemma_keep_ignores_players(self@.players, self@.players.remove(id), self@.order, id);
        }
        self.players.remove(&id);
        self.player_order = kept;
    }

    fn set_sitting(&mut self, player_id: u32, out: bool)
        ensures
            final(self)@ == old(self)@.with_sitting(player_id, out),
    {
        match self.players.remove(&player_id) {
            Some(p) => {
                let changed = Player { sitting_out: out, ..p };
                self.players.insert(player_id, changed);
                proof {
                    assert(self@.players =~= old(self)@.players.insert(
                        player_id,
                        Player { sitting_out: out, ..old(self)@.players[player_id] },
                    ));
                }
            },
            None => {
                proof {
                    assert(self@.players =~= old(self)@.players);
                }
            },
        }
    }

    /// Lets the server act for a player at each turn.
    pub fn set_sitting_out(&mut self, player_id: u32)
        ensures
            final(self)@ == old(self)@.with_sitting(player_id, true),
            final(self)@.chips_in_play() == old(self)@.chips_in_play(),
            old(self)@.bets_fit() ==> final(self)@.bets_fit(),
            old(self)@.seats_wf() ==> final(self)@.seats_wf(),
    {
        proof {
            lemma_with_sitting_chips(old(self)@, player_id, true);
            if old(self)@.seats_wf() {
                crate::seats::lemma_seats_with_sitting(old(self)@, player_id, true);
            }
        }
        self.set_sitting(player_id, true)
    }

    /// Lets a player act for themselves again.
    pub fn set_sitting_in(&mut self, player_id: u32)
        ensures
            final(self)@ == old(self)@.with_sitting(player_id, false),
            final(self)@.chips_in_play() == old(self)@.chips_in_play(),
            old(self)@.bets_fit() ==> final(self)@.bets_fit(),
            old(self)@.seats_wf() ==> final(self)@.seats_wf(),
    {
        proof {
            lemma_with_sitting_chips(old(self)@, player_id, false);
            if old(self)@.seats_wf() {
                crate::seats::lemma_seats_with_sitting(old(self)@, player_id, false);
            }
        }
        self.set_sitting(player_id, false)
    }

    fn seat_is_active(&self, i: usize) -> (b: bool)
        ensures
            b == self@.seat_active(i as int),
    {
        i < self.player_order.len() && self.seat_accepted(self.player_order[i], SeatFilter::Active)
    }

    /// The first seat from `s` on, among `steps` seats round the table,
    /// whose player is still to act.
    fn find_active_from(&self, s: usize, steps: usize) -> (found: Option<usize>)
        requires
            self@.order.len() > 0,
        ensures
            match found {
                Some(i) => self@.first_active_from(s as int, steps as nat) == Some(i as int) && self@.seat_active(
                    i as int,
                ),
                None => self@.first_active_from(s as int, steps as nat) is None,
            },
    {
        let n: usize = self.player_order.len();
        let mut at: usize = s;
        let mut left: usize = steps;
        while left > 0
            invariant
                n == self@.order.len(),
                n > 0,
                self@.first_active_from(at as int, left as nat) == self@.first_active_from(s as int, steps as nat),
            decreases left,
        {
            if self.seat_is_active(at) {
                return Some(at);
            }
            at = next_index(at, n);
            left = left - 1;
        }
        None
    }

    /// Moves the turn to the next player who is still to act.
    pub fn next_player(&mut self)
        requires
            old(self)@.order.len() > 0,
        ensures
            final(self)@ == (Table { current_player_index: old(self)@.next_seat() as usize, ..old(self)@ }),
            old(self)@.next_seat() == old(self)@.current_player_index || 0 <= old(self)@.next_seat() < old(
                self,
            )@.order.len(),
    {
        let n: usize = self.player_order.len();
        let first: usize = next_index(self.current_player_index, n);
        match self.find_active_from(first, n) {
            Some(i) => {
                self.current_player_index = i;
            },
            None => {},
        }
    }

    fn some_bet_unmatched(&self) -> (b: bool)
        ensures
            b == self@.has_unmatched_bet(),
    {
        let mut i: usize = 0;
        while i < self.player_order.len()
            invariant
                i <= self.player_order.len(),
                forall|k: int|
                    0 <= k < i ==> !(self@.is_active(#[trigger] self@.order[k])
                        && self@.players[self@.order[k]].current_bet < self@.current_bet),
            decreases self.player_order.len() - i,
        {
            let id: u32 = self.player_order[i];
            match self.players.get(&id) {
                Some(p) => {
                    if p.status == PlayerStatus::Active && p.current_bet < self.current_bet {
                        return true;
                    }
                },
                None => {},
            }
            i = i + 1;
        }
        false
    }

    /// Whether the betting round is over.
    pub fn is_betting_complete(&self) -> (done: bool)
        ensures
            done == self@.betting_complete(),
    {
        let actionable = self.actionable_players();
        if actionable.len() == 0 {
            return true;
        }
        if self.active_player_count() <= 1 {
            return true;
        }
        if self.some_bet_unmatched() {
            return false;
        }
        if self.phase == GamePhase::PreFlop && self.big_blind_option {
            return false;
        }
        if let Some(raiser) = self.last_raiser_index {
            return !(self.seat_is_active(raiser) && self.current_player_index != raiser);
        }
        if !self.has_acted_this_round {
            return false;
        }
        if let Some(first) = self.first_actor_index {
            proof {
                lemma_keep_members(self@.players, self@.order, SeatFilter::Active);
            }
            let n: usize = self.player_order.len();
            let end: usize = match self.find_active_from(first, n) {
                Some(i) => i,
                None => first % n,
            };
            return self.current_player_index == end;
        }
        true
    }
}

/// Keeping all IDs but one does not look at the players.
pub proof fn lemma_keep_ignores_players(a: Map<u32, Player>, b: Map<u32, Player>, order: Seq<u32>, id: u32)
    ensures
        keep(a, order, SeatFilter::Except(id)) == keep(b, order, SeatFilter::Except(id)),
    decreases order.len(),
{
    if order.len() > 0 {
        lemma_keep_ignores_players(a, b, order.drop_last(), id);
    }
}

fn action_listed(actions: &Vec<PlayerAction>, action: PlayerAction) -> (b: bool)
    ensures
        b == actions@.contains(action),
{
    let mut i: usize = 0;
    while i < actions.len()
        invariant
            i <= actions.len(),
            forall|k: int| 0 <= k < i ==> actions@[k] != action,
        decreases actions.len() - i,
    {
        if actions[i] == action {
            return true;
        }
        i = i + 1;
    }
    false
}

impl GameState {
    /// Checks a betting action and says how many chips it would move.
    pub fn check_action(&self, player_id: u32, action: PlayerAction, amount: u32) -> (r: Result<u32, ActionError>)
        ensures
            match r {
                Ok(moved) => self@.action_error(player_id, action, amount) is None && moved == self@.chips_moved(
                    player_id,
                    action,
                    amount,
                ) && self@.is_active(player_id) && moved <= self@.players[player_id].chips,
                Err(e) => self@.action_error(player_id, action, amount) == Some(e),
            },
    {
        if !self.game_started {
            return Err(ActionError::GameNotStarted);
        }
        if self.current_player_id() != Some(player_id) {
            return Err(ActionError::NotYourTurn);
        }
        let valid = self.valid_actions(player_id);
        if !action_listed(&valid, action) {
            return Err(ActionError::InvalidAction);
        }
        proof {
            lemma_valid_action_meaning(self@, player_id);
        }
        let (chips, bet): (u32, u32) = match self.players.get(&player_id) {
            Some(p) => (p.chips, p.current_bet),
            None => {
                return Err(ActionError::PlayerNotFound);
            },
        };
        let to_call: u32 = if self.current_bet >= bet {
            self.current_bet - bet
        } else {
            0
        };
        if action == PlayerAction::Check && to_call != 0 {
            return Err(ActionError::CannotCheck);
        }
        let total: u64 = to_call as u64 + amount as u64;
        if action == PlayerAction::Raise {
            if total > chips as u64 {
                return Err(ActionError::NotEnoughChips { have: chips, need: total });
            }
            if amount < self.min_raise && total < chips as u64 {
                return Err(ActionError::BelowMinRaise { min_raise: self.min_raise });
            }
        }
        let moved: u32 = match action {
            PlayerAction::Fold => 0,
            PlayerAction::Check => 0,
            PlayerAction::Call => if to_call <= chips {
                to_call
            } else {
                chips
            },
            PlayerAction::Raise => to_call + amount,
            PlayerAction::AllIn => chips,
        };
        Ok(moved)
    }

    /// Makes the bet of an accepted action.
    fn place_bet(&mut self, player_id: u32, action: PlayerAction, amount: u32, moved: u32)
        requires
            old(self)@.players.contains_key(player_id),
            moved == old(self)@.chips_moved(player_id, action, amount),
            moved <= old(self)@.players[player_id].chips,
            old(self)@.players[player_id].current_bet + moved <= u32::MAX,
            old(self)@.pot + moved <= u32::MAX,
        ensures
            final(self)@ == old(self)@.after_bet(player_id, action, amount),
    {
        let seat: usize = self.current_player_index;
        let player = match self.players.remove(&player_id) {
            Some(p) => p,
            None => {
                return ;
            },
        };
        let chips: u32 = player.chips;
        let new_bet: u32 = if action == PlayerAction::Fold || action == PlayerAction::Check {
            player.current_bet
        } else {
            player.current_bet + moved
        };
        let changed = match action {
            PlayerAction::Fold => Player { status: PlayerStatus::Folded, ..player },
            PlayerAction::Check => player,
            _ => Player {
                chips: chips - moved,
                current_bet: new_bet,
                status: if chips - moved == 0 {
                    PlayerStatus::AllIn
                } else {
                    player.status
                },
                ..player
            },
        };
        assert(changed == old(self)@.player_after_action(player_id, action, amount));
        self.players.insert(player_id, changed);
        self.pot = self.pot + moved;
        self.has_acted_this_round = true;
        match action {
            PlayerAction::Fold => {},
            PlayerAction::Check => {
                if self.phase == GamePhase::PreFlop && self.big_blind_option {
                    self.big_blind_option = false;
                    self.last_raiser_index = None;
                }
            },
            PlayerAction::Call => {},
            PlayerAction::Raise => {
                self.current_bet = new_bet;
                self.min_raise = self.big_blind;
                self.last_raiser_index = Some(seat);
                self.big_blind_option = false;
            },
            PlayerAction::AllIn => {
                if new_bet > self.current_bet {
                    self.current_bet = new_bet;
                    self.last_raiser_index = Some(seat);
                }
            },
        }
        proof {
            assert(self@.players =~= old(self)@.after_bet(player_id, action, amount).players);
        }
    }

    /// Applies a betting action of `player_id`: checks that it is allowed,
    /// moves the chips, and passes the turn on. A refused action leaves the
    /// table as it was.
    pub fn apply_action(&mut self, player_id: u32, action: PlayerAction, amount: u32) -> (r: Result<
        Vec<ServerMessage>,
        ActionError,
    >)
        requires
            old(self)@.wf(),
            old(self)@.bets_fit(),
        ensures
            match r {
                Ok(msgs) => {
                    &&& old(self)@.action_error(player_id, action, amount) is None
                    &&& final(self)@ == old(self)@.after_action(player_id, action, amount)
                    &&& message_views(msgs@) == old(self)@.action_messages(player_id, action, amount)
                },
                Err(e) => {
                    &&& old(self)@.action_error(player_id, action, amount) == Some(e)
                    &&& final(self)@ == old(self)@
                },
            },
            final(self)@.chips_in_play() == old(self)@.chips_in_play(),
            final(self)@.pot >= old(self)@.pot,
            final(self)@.wf(),
            final(self)@.bets_fit(),
            old(self)@.seats_wf() ==> final(self)@.seats_wf(),
    {
        let moved: u32 = match self.check_action(player_id, action, amount) {
            Ok(moved) => moved,
            Err(e) => {
                return Err(e);
            },
        };
        proof {
            lemma_action_conserves_chips(self@, player_id, action, amount);
            if self@.seats_wf() {
                lemma_valid_action_meaning(self@, player_id);
                crate::seats::lemma_seats_after_action(self@, player_id, action, amount);
            }
            lemma_total_chips_insert(self@.players, player_id, self@.players[player_id]);
        }
        self.place_bet(player_id, action, amount, moved);
        let amount_moved: Option<u32> = if action == PlayerAction::Fold || action == PlayerAction::Check {
            None
        } else {
            Some(moved)
        };
        let mut msgs: Vec<ServerMessage> = Vec::new();
        msgs.push(ServerMessage::PlayerActed { player_id, action, amount: amount_moved });
        msgs.push(ServerMessage::PotUpdate { pot: self.pot });
        self.next_player();
        proof {
            assert(message_views(msgs@) =~= old(self)@.action_messages(player_id, action, amount));
        }
        Ok(msgs)
    }
}

impl GameState {
    /// Takes back every player's bet; with `ready`, also readies every
    /// player for a new hand.
    fn refresh_players(&mut self, ready: bool)
        ensures
            final(self)@ == (Table {
                players: if ready {
                    all_readied(old(self)@.players)
                } else {
                    all_bets_cleared(old(self)@.players)
                },
                ..old(self)@
            }),
    {
        let ids = self.player_ids();
        let ghost before = self@;
        let mut i: usize = 0;
        while i < ids.len()
            invariant
                i <= ids.len(),
                is_walk(ids@, before.players),
                self@ == (Table { players: self@.players, ..before }),
                self@.players.dom() == before.players.dom(),
                forall|j: int|
                    0 <= j < i ==> self@.players[#[trigger] ids@[j]] == (if ready {
                        readied(before.players[ids@[j]])
                    } else {
                        bet_cleared(before.players[ids@[j]])
                    }),
                forall|j: int| i <= j < ids.len() ==> self@.players[#[trigger] ids@[j]] == before.players[ids@[j]],
            decreases ids.len() - i,
        {
            let id: u32 = ids[i];
            let ghost now = self@.players;
            proof {
                assert(ids@.contains(id));
                assert(ids@.to_set().contains(id));
            }
            match self.players.remove(&id) {
                Some(p) => {
                    let q = if ready {
                        Player {
                            status: if p.chips > 0 {
                                PlayerStatus::Active
                            } else {
                                PlayerStatus::Out
                            },
                            hole_cards: None,
                            current_bet: 0,
                            ..p
                        }
                    } else {
                        Player { current_bet: 0, ..p }
                    };
                    self.players.insert(id, q);
                    proof {
                        assert(self@.players =~= now.insert(id, q));
                        assert(self@.players.dom() =~= before.players.dom());
                        assert forall|j: int| 0 <= j < i + 1 implies self@.players[#[trigger] ids@[j]] == (if ready {
                            readied(before.players[ids@[j]])
                        } else {
                            bet_cleared(before.players[ids@[j]])
                        }) by {
                            if j < i {
                                assert(ids@[j] != ids@[i as int]);
                            }
                        }
                        assert forall|j: int| i + 1 <= j < ids.len() implies self@.players[#[trigger] ids@[j]]
                            == before.players[ids@[j]] by {
                            assert(ids@[j] != ids@[i as int]);
                        }
                    }
                },
                None => {
                    proof {
                        assert(false);
                    }
                },
            }
            i = i + 1;
        }
        proof {
            let target = if ready {
                all_readied(before.players)
            } else {
                all_bets_cleared(before.players)
            };
            assert forall|id: u32| self@.players.contains_key(id) implies self@.players[id] == target[id] by {
                assert(ids@.to_set().contains(id));
                assert(ids@.contains(id));
                let j = choose|j: int| 0 <= j < ids@.len() && ids@[j] == id;
                assert(self@.players[ids@[j]] == target[id]);
            }
            assert(self@.players =~= target);
        }
    }

    /// Ends the betting round and deals the next street.
    pub fn advance_phase(&mut self) -> (msgs: Vec<ServerMessage>)
        requires
            old(self)@.order.len() > 0,
        ensures
            final(self)@ == old(self)@.after_advance(),
            message_views(msgs@) == old(self)@.advance_messages(),
            final(self)@.chips_in_play() == old(self)@.chips_in_play(),
            final(self)@.pot == old(self)@.pot,
            final(self)@.bets_fit(),
            old(self)@.wf() ==> final(self)@.wf(),
            old(self)@.seats_wf() ==> final(self)@.seats_wf(),
    {
        let mut msgs: Vec<ServerMessage> = Vec::new();
        proof {
            lemma_round_reset_keeps_chips(self@);
            if self@.seats_wf() {
                crate::seats::lemma_seats_after_advance(self@);
            }
        }
        self.refresh_players(false);
        self.current_bet = 0;
        self.last_raiser_index = None;
        self.big_blind_option = false;
        self.has_acted_this_round = false;
        assert(self@ == old(self)@.with_round_reset());
        let n: usize = self.player_order.len();
        let start: usize = next_index(self.dealer_index, n);
        let seat: usize = match self.find_active_from(start, n) {
            Some(i) => i,
            None => start,
        };
        self.current_player_index = seat;
        self.first_actor_index = Some(seat);
        let street: usize = match self.phase {
            GamePhase::PreFlop => 3,
            GamePhase::Flop => 1,
            GamePhase::Turn => 1,
            _ => 0,
        };
        let mut k: usize = street;
        while k > 0
            invariant
                self@ == (Table {
                    deck: self@.deck,
                    community_cards: self@.community_cards,
                    phase: old(self)@.phase,
                    ..old(self)@.after_advance()
                }),
                deal_community(self@.deck, self@.community_cards, k as nat) == deal_community(
                    old(self)@.deck,
                    old(self)@.community_cards,
                    street as nat,
                ),
            decreases k,
        {
            match self.deck.pop() {
                Some(card) => {
                    self.community_cards.push(card);
                },
                None => {},
            }
            k = k - 1;
        }
        match self.phase {
            GamePhase::PreFlop => {
                self.phase = GamePhase::Flop;
                msgs.push(
                    ServerMessage::CommunityCards { stage: "flop".to_string(), cards: cards_to_infos(&self.community_cards) },
                );
            },
            GamePhase::Flop => {
                self.phase = GamePhase::Turn;
                msgs.push(
                    ServerMessage::CommunityCards { stage: "turn".to_string(), cards: cards_to_infos(&self.community_cards) },
                );
            },
            GamePhase::Turn => {
                self.phase = GamePhase::River;
                msgs.push(
                    ServerMessage::CommunityCards {
                        stage: "river".to_string(),
                        cards: cards_to_infos(&self.community_cards),
                    },
                );
            },
            GamePhase::River => {
                self.phase = GamePhase::Showdown;
            },
            _ => {},
        }
        proof {
            assert(message_views(msgs@) =~= old(self)@.advance_messages());
        }
        msgs
    }
}

/// A blind raised by `percent` percent, the rise rounded up.
fn raise_blind(blind: u32, percent: u32) -> (raised: u32)
    requires
        raised_blind(blind, percent) <= u32::MAX,
    ensures
        raised == raised_blind(blind, percent),
{
    let rise: u64 = (blind as u64 * percent as u64 + 99) / 100;
    (blind as u64 + rise) as u32
}

impl GameState {
    /// Takes a blind from a player, or their whole stack where it is less.
    fn post_blind(&mut self, player_id: u32, amount: u32)
        requires
            old(self)@.wf(),
        ensures
            final(self)@ == old(self)@.after_blind(player_id, amount),
    {
        proof {
            lemma_blind_keeps_chips(self@, player_id, amount);
        }
        match self.players.remove(&player_id) {
            Some(p) => {
                let actual: u32 = if amount <= p.chips {
                    amount
                } else {
                    p.chips
                };
                let left: u32 = p.chips - actual;
                let posted = Player {
                    chips: left,
                    current_bet: actual,
                    status: if left == 0 {
                        PlayerStatus::AllIn
                    } else {
                        p.status
                    },
                    ..p
                };
                self.players.insert(player_id, posted);
                self.pot = self.pot + actual;
                proof {
                    assert(self@.players =~= old(self)@.after_blind(player_id, amount).players);
                }
            },
            None => {
                proof {
                    assert(self@.players =~= old(self)@.players);
                }
            },
        }
    }

    /// Raises the blinds where `raise` says so, and clears the table for a
    /// hand with `deck`.
    fn clear_for_hand(&mut self, raise: Option<Instant>, deck: Vec<Card>) -> (msgs: Vec<ServerMessage>)
        requires
            old(self)@.can_begin_hand(raise is Some, deck@.len()),
        ensures
            final(self)@ == (match raise {
                Some(now) => old(self)@.with_raised_blinds(now),
                None => old(self)@,
            }).with_fresh_hand(deck@),
            message_views(msgs@) == (if raise is Some {
                seq![
                    ServerMessageView::BlindsIncreased {
                        small_blind: final(self)@.small_blind,
                        big_blind: final(self)@.big_blind,
                    },
                ]
            } else {
                Seq::<ServerMessageView>::empty()
            }),
    {
        let mut msgs: Vec<ServerMessage> = Vec::new();
        if let Some(now) = raise {
            let percent: u32 = self.blind_config.increase_percent;
            self.small_blind = raise_blind(self.small_blind, percent);
            self.big_blind = raise_blind(self.big_blind, percent);
            self.last_blind_increase = Some(now);
            msgs.push(ServerMessage::BlindsIncreased { small_blind: self.small_blind, big_blind: self.big_blind });
        }
        self.hand_number = self.hand_number + 1;
        self.phase = GamePhase::PreFlop;
        self.pot = 0;
        self.current_bet = 0;
        self.community_cards = Vec::new();
        self.deck = deck;
        self.refresh_players(true);
        let kept = self.keep_seats(SeatFilter::Funded);
        self.player_order = kept;
        proof {
            assert(message_views(msgs@) =~= (if raise is Some {
                seq![
                    ServerMessageView::BlindsIncreased { small_blind: self@.small_blind, big_blind: self@.big_blind },
                ]
            } else {
                Seq::<ServerMessageView>::empty()
            }));
        }
        msgs
    }

    /// Moves the button and posts the blinds.
    fn post_blinds(&mut self) -> (msg: ServerMessage)
        requires
            old(self)@.order.len() >= 2,
            old(self)@.wf(),
        ensures
            final(self)@ == old(self)@.with_blinds_posted(),
            msg@ == old(self)@.new_hand_message(),
    {
        let n: usize = self.player_order.len();
        let dealer: usize = next_index(self.dealer_index, n);
        let small: usize = next_index(dealer, n);
        let big: usize = next_index(small, n);
        let first: usize = next_index(big, n);
        let dealer_id: u32 = self.player_order[dealer];
        let small_id: u32 = self.player_order[small];
        let big_id: u32 = self.player_order[big];
        proof {
            lemma_blind_keeps_chips(self@, small_id, self@.small_blind);
        }
        self.post_blind(small_id, self.small_blind);
        self.post_blind(big_id, self.big_blind);
        self.dealer_index = dealer;
        self.current_bet = self.big_blind;
        self.min_raise = self.big_blind;
        self.current_player_index = first;
        self.last_raiser_index = Some(big);
        self.big_blind_option = true;
        self.first_actor_index = Some(first);
        self.has_acted_this_round = false;
        ServerMessage::NewHand {
            hand_number: self.hand_number,
            dealer_id,
            small_blind_id: small_id,
            big_blind_id: big_id,
            small_blind: self.small_blind,
            big_blind: self.big_blind,
        }
    }

    /// Deals two hole cards to every player who is in the hand.
    fn deal_hole_cards(&mut self)
        requires
            old(self)@.deck.len() >= 2 * keep(old(self)@.players, old(self)@.order, SeatFilter::InHand).len(),
        ensures
            final(self)@ == old(self)@.with_hole_cards(),
    {
        let ids = self.keep_seats(SeatFilter::InHand);
        let ghost before = self@;
        let mut i: usize = 0;
        proof {
            assert(ids@.skip(0) =~= ids@);
        }
        while i < ids.len()
            invariant
                i <= ids.len(),
                self@ == (Table { players: self@.players, deck: self@.deck, ..before }),
                self@.deck.len() >= 2 * (ids.len() - i),
                deal_hole(self@.players, self@.deck, ids@.skip(i as int)) == deal_hole(before.players, before.deck, ids@),
            decreases ids.len() - i,
        {
            let id: u32 = ids[i];
            let ghost players_now = self@.players;
            let ghost deck_now = self@.deck;
            proof {
                assert(ids@.skip(i as int)[0] == id);
                assert(ids@.skip(i as int).drop_first() =~= ids@.skip(i + 1));
            }
            let first = match self.deck.pop() {
                Some(c) => c,
                None => {
                    proof {
                        assert(false);
                    }
                    return ;
                },
            };
            let second = match self.deck.pop() {
                Some(c) => c,
                None => {
                    proof {
                        assert(false);
                    }
                    return ;
                },
            };
            match self.players.remove(&id) {
                Some(p) => {
                    let dealt = Player { hole_cards: Some((first, second)), ..p };
                    self.players.insert(id, dealt);
                    proof {
                        assert(self@.players =~= players_now.insert(
                            id,
                            Player { hole_cards: Some((first, second)), ..players_now[id] },
                        ));
                    }
                },
                None => {
                    proof {
                        assert(self@.players =~= players_now);
                    }
                },
            }
            i = i + 1;
        }
    }

    /// Starts a hand that is played with `deck`, after raising the blinds
    /// where `raise` holds the moment of the rise.
    pub fn begin_hand(&mut self, raise: Option<Instant>, deck: Vec<Card>) -> (msgs: Vec<ServerMessage>)
        requires
            old(self)@.can_begin_hand(raise is Some, deck@.len()),
        ensures
            final(self)@ == old(self)@.after_new_hand(raise, deck@),
            message_views(msgs@) == old(self)@.new_hand_messages(raise, deck@),
            final(self)@.chips_in_play() == total_chips(old(self)@.players),
            final(self)@.wf(),
            final(self)@.bets_fit(),
            final(self)@.players.dom() == old(self)@.players.dom(),
            old(self)@.seats_wf() ==> final(self)@.seats_wf(),
    {
        proof {
            if self@.seats_wf() {
                crate::seats::lemma_seats_after_new_hand(self@, raise, deck@);
            }
        }
        let ghost priced = match raise {
            Some(now) => old(self)@.with_raised_blinds(now),
            None => old(self)@,
        };
        let mut msgs = self.clear_for_hand(raise, deck);
        proof {
            lemma_fresh_hand_chips(priced, deck@);
            assert(self@.players.dom() =~= old(self)@.players.dom());
        }
        if self.player_order.len() < 2 {
            proof {
                assert(message_views(msgs@) =~= old(self)@.new_hand_messages(raise, deck@));
            }
            return msgs;
        }
        let ghost fresh = self@;
        let announce = self.post_blinds();
        proof {
            let small = fresh.order[fresh.next_small_blind()];
            let big = fresh.order[fresh.next_big_blind()];
            let one = fresh.after_blind(small, fresh.small_blind);
            lemma_blind_keeps_chips(fresh, small, fresh.small_blind);
            lemma_blind_keeps_bets_fit(fresh, small, fresh.small_blind);
            lemma_blind_keeps_chips(one, big, fresh.big_blind);
            lemma_blind_keeps_bets_fit(one, big, fresh.big_blind);
            lemma_keep_members(self@.players, self@.order, SeatFilter::InHand);
            lemma_hole_cards_keep_chips(self@);
            lemma_deal_hole_keeps(self@.players, self@.deck, keep(self@.players, self@.order, SeatFilter::InHand));
        }
        let ghost told = msgs@;
        msgs.push(announce);
        self.deal_hole_cards();
        proof {
            assert(message_views(msgs@) =~= message_views(told).push(announce@));
            assert(message_views(msgs@) =~= old(self)@.new_hand_messages(raise, deck@));
        }
        msgs
    }

    /// Starts a hand that is played with `deck` at the moment `now`, when
    /// `elapsed` seconds have passed on the clock of the blinds: the blinds
    /// rise first where rises are configured and the interval has passed.
    pub fn begin_hand_after(&mut self, elapsed: Option<u64>, now: Instant, deck: Vec<Card>) -> (msgs: Vec<
        ServerMessage,
    >)
        requires
            old(self)@.can_begin_hand(old(self)@.rise_due(elapsed), deck@.len()),
        ensures
            final(self)@ == old(self)@.after_new_hand(old(self)@.raise_at(elapsed, now), deck@),
            message_views(msgs@) == old(self)@.new_hand_messages(old(self)@.raise_at(elapsed, now), deck@),
            final(self)@.chips_in_play() == total_chips(old(self)@.players),
            final(self)@.wf(),
            final(self)@.bets_fit(),
            final(self)@.players.dom() == old(self)@.players.dom(),
            old(self)@.seats_wf() ==> final(self)@.seats_wf(),
    {
        let raise = self.rise_moment(elapsed, now);
        self.begin_hand(raise, deck)
    }

    /// Starts a new hand with a freshly shuffled deck. The blinds rise
    /// first where rises are configured and the interval has passed since
    /// the last one.
    pub fn start_new_hand(&mut self) -> (msgs: Vec<ServerMessage>)
        requires
            old(self)@.can_begin_hand(old(self)@.blind_config.spec_is_enabled(), 52),
        ensures
            exists|elapsed: Option<u64>, now: Instant, deck: Seq<Card>|
                {
                    &&& elapsed is Some <==> old(self)@.last_blind_increase is Some
                    &&& deck.to_multiset() == fresh_deck().to_multiset()
                    &&& final(self)@ == old(self)@.after_new_hand(old(self)@.raise_at(elapsed, now), deck)
                    &&& message_views(msgs@) == old(self)@.new_hand_messages(old(self)@.raise_at(elapsed, now), deck)
                },
            final(self)@.chips_in_play() == total_chips(old(self)@.players),
            final(self)@.wf(),
            final(self)@.bets_fit(),
            final(self)@.hole_cards_differ(),
            old(self)@.seats_wf() ==> final(self)@.seats_wf(),
    {
        let (elapsed, now, deck) = self.draw_hand();
        proof {
            crate::dealing::lemma_shuffled_deck_distinct(deck@);
            crate::dealing::lemma_new_hand_deals(old(self)@, old(self)@.raise_at(elapsed, now), deck@);
        }
        self.begin_hand_after(elapsed, now, deck)
    }
}

/// The chips of the first `k` players of `walk`.
pub open spec fn walk_chips(players: Map<u32, Player>, walk: Seq<u32>, k: int) -> int
    decreases k,
{
    if k <= 0 {
        0
    } else {
        walk_chips(players, walk, k - 1) + players[walk[k - 1]].chips
    }
}

proof fn lemma_walk_chips_same(a: Map<u32, Player>, b: Map<u32, Player>, walk: Seq<u32>, k: int)
    requires
        0 <= k <= walk.len(),
        forall|j: int| 0 <= j < k ==> a[walk[j]].chips == b[walk[j]].chips,
    ensures
        walk_chips(a, walk, k) == walk_chips(b, walk, k),
    decreases k,
{
    if k > 0 {
        lemma_walk_chips_same(a, b, walk, k - 1);
    }
}

proof fn lemma_walk_chips_prefix(players: Map<u32, Player>, walk: Seq<u32>, shorter: Seq<u32>, k: int)
    requires
        0 <= k <= shorter.len() <= walk.len(),
        forall|j: int| 0 <= j < k ==> walk[j] == shorter[j],
    ensures
        walk_chips(players, walk, k) == walk_chips(players, shorter, k),
    decreases k,
{
    if k > 0 {
        lemma_walk_chips_prefix(players, walk, shorter, k - 1);
    }
}

/// Walking all players once adds up all their chips.
pub proof fn lemma_walk_chips_total(players: Map<u32, Player>, walk: Seq<u32>)
    requires
        is_walk(walk, players),
    ensures
        walk_chips(players, walk, walk.len() as int) == total_chips(players),
    decreases walk.len(),
{
    if walk.len() == 0 {
        assert(players.dom() =~= Set::<u32>::empty());
        assert(players =~= Map::<u32, Player>::empty());
        lemma_chips_below_empty(0x1_0000_0000);
    } else {
        let last = walk.last();
        let rest = walk.drop_last();
        let fewer = players.remove(last);
        assert(walk[walk.len() - 1] == last);
        assert(walk.contains(last));
        assert(walk.to_set().contains(last));
        assert(rest.no_duplicates());
        assert(rest.to_set() =~= fewer.dom()) by {
            assert forall|x: u32| rest.to_set().contains(x) <==> fewer.dom().contains(x) by {
                if rest.contains(x) {
                    let j = choose|j: int| 0 <= j < rest.len() && rest[j] == x;
                    assert(walk[j] == x);
                    assert(walk.contains(x));
                    assert(walk.to_set().contains(x));
                    assert(x != last) by {
                        if x == last {
                            assert(walk[j] == walk[walk.len() - 1]);
                        }
                    }
                }
                if fewer.dom().contains(x) {
                    assert(walk.to_set().contains(x));
                    assert(walk.contains(x));
                    let j = choose|j: int| 0 <= j < walk.len() && walk[j] == x;
                    assert(j < walk.len() - 1);
                    assert(rest[j] == x);
                }
            }
        }
        lemma_walk_chips_total(fewer, rest);
        lemma_chips_below_remove(players, last, 0x1_0000_0000);
        assert forall|j: int| 0 <= j < rest.len() implies fewer[rest[j]].chips == players[rest[j]].chips by {
            assert(rest[j] == walk[j]);
            if walk[j] == last {
                assert(walk[j] == walk[walk.len() - 1]);
            }
        }
        lemma_walk_chips_same(fewer, players, rest, rest.len() as int);
        lemma_walk_chips_prefix(players, walk, rest, rest.len() as int);
    }
}

impl GameState {
    /// Whether the chips at the table fit the machine's numbers.
    pub fn chips_fit(&self) -> (b: bool)
        ensures
            b == self@.wf(),
    {
        let walk = self.player_ids();
        let mut sum: u64 = self.pot as u64;
        let mut i: usize = 0;
        proof {
            lemma_walk_chips_total(self@.players, walk@);
        }
        while i < walk.len()
            invariant
                i <= walk.len(),
                is_walk(walk@, self@.players),
                sum == self@.pot + walk_chips(self@.players, walk@, i as int),
                sum <= u32::MAX,
                walk_chips(self@.players, walk@, walk@.len() as int) == total_chips(self@.players),
            decreases walk.len() - i,
        {
            let id: u32 = walk[i];
            proof {
                assert(walk@.contains(id));
                assert(walk@.to_set().contains(id));
            }
            let chips: u32 = match self.players.get(&id) {
                Some(p) => p.chips,
                None => 0,
            };
            sum = sum + chips as u64;
            if sum > u32::MAX as u64 {
                proof {
                    lemma_walk_chips_grows(self@.players, walk@, i + 1, walk@.len() as int);
                }
                return false;
            }
            i = i + 1;
        }
        true
    }

    /// Whether no player's stack and bet together exceed the machine's
    /// numbers.
    pub fn bets_in_range(&self) -> (b: bool)
        ensures
            b == self@.bets_fit(),
    {
        let walk = self.player_ids();
        let mut i: usize = 0;
        while i < walk.len()
            invariant
                i <= walk.len(),
                is_walk(walk@, self@.players),
                forall|j: int|
                    0 <= j < i ==> self@.players[#[trigger] walk@[j]].chips + self@.players[walk@[j]].current_bet
                        <= u32::MAX,
            decreases walk.len() - i,
        {
            let id: u32 = walk[i];
            proof {
                assert(walk@.contains(id));
                assert(walk@.to_set().contains(id));
            }
            match self.players.get(&id) {
                Some(p) => {
                    if p.chips as u64 + p.current_bet as u64 > u32::MAX as u64 {
                        return false;
                    }
                },
                None => {},
            }
            i = i + 1;
        }
        proof {
            assert forall|id: u32| #[trigger] self@.players.contains_key(id) implies self@.players[id].chips
                + self@.players[id].current_bet <= u32::MAX by {
                assert(walk@.to_set().contains(id));
                assert(walk@.contains(id));
                let j = choose|j: int| 0 <= j < walk@.len() && walk@[j] == id;
                assert(self@.players[walk@[j]].chips + self@.players[walk@[j]].current_bet <= u32::MAX);
            }
        }
        true
    }

    /// Whether a hand can begin: see `can_begin_hand`.
    pub fn can_start_hand(&self, raise: bool, deck_len: usize) -> (b: bool)
        ensures
            b == self@.can_begin_hand(raise, deck_len as nat),
    {
        if self.hand_number == u32::MAX {
            return false;
        }
        let saved_pot: u32 = self.pot;
        let walk = self.player_ids();
        let mut sum: u64 = 0;
        let mut i: usize = 0;
        proof {
            lemma_walk_chips_total(self@.players, walk@);
        }
        while i < walk.len()
            invariant
                i <= walk.len(),
                is_walk(walk@, self@.players),
                sum == walk_chips(self@.players, walk@, i as int),
                sum <= u32::MAX,
                walk_chips(self@.players, walk@, walk@.len() as int) == total_chips(self@.players),
                self@.hand_number < u32::MAX,
            decreases walk.len() - i,
        {
            let id: u32 = walk[i];
            let chips: u32 = match self.players.get(&id) {
                Some(p) => p.chips,
                None => 0,
            };
            proof {
                assert(walk@.contains(id));
                assert(walk@.to_set().contains(id));
            }
            sum = sum + chips as u64;
            if sum > u32::MAX as u64 {
                proof {
                    lemma_walk_chips_grows(self@.players, walk@, i + 1, walk@.len() as int);
                }
                return false;
            }
            i = i + 1;
        }
        if raise {
            let percent: u64 = self.blind_config.increase_percent as u64;
            proof {
                let a = self.small_blind as int;
                let b = self.big_blind as int;
                let c = percent as int;
                assert(a * c <= 0xffff_ffff * 0xffff_ffff && b * c <= 0xffff_ffff * 0xffff_ffff) by (nonlinear_arith)
                    requires
                        0 <= a <= 0xffff_ffff,
                        0 <= b <= 0xffff_ffff,
                        0 <= c <= 0xffff_ffff,
                ;
            }
            let small: u64 = self.small_blind as u64 + (self.small_blind as u64 * percent + 99) / 100;
            let big: u64 = self.big_blind as u64 + (self.big_blind as u64 * percent + 99) / 100;
            if small > u32::MAX as u64 || big > u32::MAX as u64 {
                return false;
            }
        }
        let funded = self.keep_seats(SeatFilter::Funded);
        funded.len() <= deck_len / 2
    }

    /// The whole seconds that have passed since the blinds last rose, or
    /// since the game began where they have not risen yet; nothing before
    /// the game began.
    pub fn blind_clock(&self) -> (elapsed: Option<u64>)
        ensures
            elapsed is Some <==> self@.last_blind_increase is Some,
    {
        match &self.last_blind_increase {
            Some(last) => Some(seconds_since(last)),
            None => None,
        }
    }

    /// Whether the blinds rise before the next hand, `elapsed` being what
    /// the clock of the blinds shows.
    pub fn blinds_due(&self, elapsed: Option<u64>) -> (due: bool)
        ensures
            due == self@.rise_due(elapsed),
    {
        if !self.blind_config.is_enabled() || self.last_blind_increase.is_none() {
            return false;
        }
        match elapsed {
            Some(secs) => secs >= self.blind_config.interval_secs,
            None => false,
        }
    }

    /// The moment of the rise of the blinds before the next hand: `now`
    /// where a rise is due, nothing where none is.
    pub fn rise_moment(&self, elapsed: Option<u64>, now: Instant) -> (raise: Option<Instant>)
        ensures
            raise == self@.raise_at(elapsed, now),
    {
        if self.blinds_due(elapsed) {
            Some(now)
        } else {
            None
        }
    }

    /// What a new hand takes from outside: the reading of the clock of the
    /// blinds, the present moment, and a shuffled deck.
    pub fn draw_hand(&self) -> (r: (Option<u64>, Instant, Vec<Card>))
        ensures
            r.0 is Some <==> self@.last_blind_increase is Some,
            r.2@.to_multiset() == fresh_deck().to_multiset(),
            r.2@.len() == 52,
    {
        let elapsed = self.blind_clock();
        let now = clock_now();
        let mut deck = get_all_cards();
        let mut rng = thread_rng();
        shuffle_cards(&mut deck, &mut rng);
        proof {
            vstd::seq_lib::to_multiset_len(deck@);
            vstd::seq_lib::to_multiset_len(fresh_deck());
        }
        (elapsed, now, deck)
    }
}

proof fn lemma_walk_chips_grows(players: Map<u32, Player>, walk: Seq<u32>, i: int, k: int)
    requires
        0 <= i <= k,
    ensures
        walk_chips(players, walk, i) <= walk_chips(players, walk, k),
    decreases k,
{
    if i < k {
        lemma_walk_chips_grows(players, walk, i, k - 1);
    }
}

} // verus!
