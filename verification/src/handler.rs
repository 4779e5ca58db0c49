//! What a room does with the messages of its players and with the timers
//! that run for it: each function takes the room from one state to the
//! next, and says what goes out and what is to happen later.

use vstd::prelude::*;
use vstd::string::StringExecFns;
use crate::game::{is_walk, keep, ActionError, GamePhase, GameState, Player, SeatFilter, Table, TURN_TIMEOUT_SECS};
use crate::game::{lemma_keep_members, lemma_round_reset_keeps_chips};
use crate::protocol::{card_infos, cards_to_infos, equity_hand_views, message_views, player_views, CardInfo, ClientMessage, Equity, EquityView, PlayerAction, ServerMessage, ServerMessageView};
use crate::cards::{Card, Hand};
use crate::equity::{calculate_equity_multi, is_trial_run, EquityTally};
use crate::room::player_infos;
use crate::random::clock_now;
use crate::room::product_fits;
use std::time::Instant;
use crate::room::{outbound_views, Outbound, OutboundView, Room, RoomView};
use crate::text::{decimal, number_text};

verus! {

broadcast use vstd::std_specs::hash::group_hash_axioms;

/// Milliseconds before the server acts for a player who sits out.
pub const AUTO_ACT_DELAY_MS: u64 = 100;

/// Milliseconds between two streets when the board is run out.
pub const RUN_OUT_DELAY_MS: u64 = 500;

/// Milliseconds between the end of a hand and the start of the next.
pub const NEXT_HAND_DELAY_MS: u64 = 2000;

/// What is to happen later, after a step of the room.
#[derive(Debug, Clone, Copy, PartialEq, Eq, Structural)]
pub enum Next {
    /// Nothing.
    Idle,
    /// The player has `timeout_secs` seconds to act; then the timeout is to
    /// be handled for the turn `turn`.
    AwaitTurn { player_id: u32, turn: u64, timeout_secs: u32 },
    /// The player sits out: after `delay_ms` milliseconds the action is to
    /// be processed for them.
    AutoAct { player_id: u32, action: PlayerAction, delay_ms: u64 },
    /// Nobody can act any more: the hands are to be revealed now, and
    /// after `delay_ms` milliseconds the next street is to be dealt.
    Reveal { delay_ms: u64 },
    /// The board is run out: after `delay_ms` milliseconds the next
    /// street is to be dealt.
    RunOut { delay_ms: u64 },
    /// The hand is over: after `delay_ms` milliseconds the next is to
    /// start.
    NextHand { delay_ms: u64 },
}

/// The outcome of a step of the room.
#[derive(Debug)]
pub struct Step {
    pub outbound: Vec<Outbound>,
    pub next: Next,
}

/// The name of an action as it stands in a list of valid actions.
pub open spec fn action_name(action: PlayerAction) -> Seq<char> {
    match action {
        PlayerAction::Fold => "Fold"@,
        PlayerAction::Check => "Check"@,
        PlayerAction::Call => "Call"@,
        PlayerAction::Raise => "Raise"@,
        PlayerAction::AllIn => "AllIn"@,
    }
}

/// The names of the first `k` actions, separated by a comma and a space.
pub open spec fn action_names(actions: Seq<PlayerAction>, k: int) -> Seq<char>
    decreases k,
{
    if k <= 0 {
        Seq::<char>::empty()
    } else if k == 1 {
        action_name(actions[0])
    } else {
        action_names(actions, k - 1) + ", "@ + action_name(actions[k - 1])
    }
}

/// The words in which a refused action is answered; `valid` are the
/// actions that were open to the player.
pub open spec fn action_error_text(e: ActionError, valid: Seq<PlayerAction>) -> Seq<char> {
    match e {
        ActionError::GameNotStarted => "Game not started"@,
        ActionError::NotYourTurn => "Not your turn"@,
        ActionError::InvalidAction => "Invalid action. Valid: ["@ + action_names(valid, valid.len() as int) + "]"@,
        ActionError::PlayerNotFound => "Player not found"@,
        ActionError::CannotCheck => "Cannot check, must call or raise"@,
        ActionError::NotEnoughChips { have, need } => "Not enough chips. Have "@ + decimal(have as nat) + ", need "@
            + decimal(need as nat),
        ActionError::BelowMinRaise { min_raise } => "Minimum raise is "@ + decimal(min_raise as nat),
    }
}

fn action_name_text(action: PlayerAction) -> (s: &'static str)
    ensures
        s@ == action_name(action),
{
    match action {
        PlayerAction::Fold => "Fold",
        PlayerAction::Check => "Check",
        PlayerAction::Call => "Call",
        PlayerAction::Raise => "Raise",
        PlayerAction::AllIn => "AllIn",
    }
}

/// Writes the answer to a refused action.
pub fn action_error_message(e: ActionError, valid: &Vec<PlayerAction>) -> (s: String)
    ensures
        s@ == action_error_text(e, valid@),
{
    match e {
        ActionError::GameNotStarted => "Game not started".to_string(),
        ActionError::NotYourTurn => "Not your turn".to_string(),
        ActionError::InvalidAction => {
            let mut s = "Invalid action. Valid: [".to_string();
            let ghost head = s@;
            let mut i: usize = 0;
            assert(s@ =~= head + action_names(valid@, 0));
            while i < valid.len()
                invariant
                    i <= valid.len(),
                    s@ == head + action_names(valid@, i as int),
                decreases valid.len() - i,
            {
                if i > 0 {
                    s.append(", ");
                }
                s.append(action_name_text(valid[i]));
                proof {
                    assert(s@ =~= head + action_names(valid@, i + 1));
                }
                i = i + 1;
            }
            s.append("]");
            s
        },
        ActionError::PlayerNotFound => "Player not found".to_string(),
        ActionError::CannotCheck => "Cannot check, must call or raise".to_string(),
        ActionError::NotEnoughChips { have, need } => {
            let mut s = "Not enough chips. Have ".to_string();
            let a = number_text(have as u64);
            s.append(a.as_str());
            s.append(", need ");
            let b = number_text(need);
            s.append(b.as_str());
            s
        },
        ActionError::BelowMinRaise { min_raise } => {
            let mut s = "Minimum raise is ".to_string();
            let a = number_text(min_raise as u64);
            s.append(a.as_str());
            s
        },
    }
}

impl RoomView {
    /// Each of `msgs` addressed to everybody who is connected.
    pub open spec fn broadcasts(self, msgs: Seq<ServerMessageView>) -> Seq<OutboundView> {
        Seq::new(msgs.len(), |i: int| self.to_all(msgs[i]))
    }

    /// The number of the turn that begins next.
    pub open spec fn next_turn(self) -> u64 {
        if self.turn_counter == u64::MAX {
            0
        } else {
            (self.turn_counter + 1) as u64
        }
    }

    /// What the server does for `player_id` when they do not act: it
    /// checks where that is allowed, and folds where it is not.
    pub open spec fn forced_action(self, player_id: u32) -> PlayerAction {
        if self.game.valid_actions(player_id).contains(PlayerAction::Check) {
            PlayerAction::Check
        } else {
            PlayerAction::Fold
        }
    }

    /// The player whose turn it is sits out.
    pub open spec fn current_sits_out(self) -> bool {
        self.game.current_player_id() matches Some(id) && self.game.players.contains_key(id)
            && self.game.players[id].sitting_out
    }

    /// The room after the player whose turn it is was told so: a new turn
    /// is counted.
    pub open spec fn after_notify(self) -> RoomView {
        if self.game.current_player_id() is Some {
            RoomView { turn_counter: self.next_turn(), ..self }
        } else {
            self
        }
    }

    /// The request to act for the player whose turn it is.
    pub open spec fn your_turn(self, player_id: u32) -> ServerMessageView {
        ServerMessageView::YourTurn {
            current_bet: self.game.current_bet,
            your_bet: if self.game.players.contains_key(player_id) {
                self.game.players[player_id].current_bet
            } else {
                0
            },
            pot: self.game.pot,
            min_raise: self.game.min_raise,
            valid_actions: self.game.valid_actions(player_id),
        }
    }

    /// What goes out when a turn begins: the request to act, to the player
    /// alone, and the start of the turn timer, to everybody, unless the
    /// player sits out.
    pub open spec fn notify_out(self) -> Seq<OutboundView> {
        match self.game.current_player_id() {
            None => Seq::<OutboundView>::empty(),
            Some(id) => seq![self.to_player(id, self.your_turn(id))] + (if self.current_sits_out() {
                Seq::<OutboundView>::empty()
            } else {
                seq![
                    self.to_all(ServerMessageView::TurnTimerStarted { player_id: id, timeout_secs: TURN_TIMEOUT_SECS }),
                ]
            }),
        }
    }

    /// What is to happen after a turn began: the server acts soon for a
    /// player who sits out, and waits for the others until their time is
    /// up.
    pub open spec fn notify_next(self) -> Next {
        match self.game.current_player_id() {
            None => Next::Idle,
            Some(id) => if self.current_sits_out() {
                Next::AutoAct { player_id: id, action: self.forced_action(id), delay_ms: AUTO_ACT_DELAY_MS }
            } else {
                Next::AwaitTurn { player_id: id, turn: self.next_turn(), timeout_secs: TURN_TIMEOUT_SECS }
            },
        }
    }

    /// What is to happen after a hand was resolved: the next hand, while
    /// the game runs and two seats are taken.
    pub open spec fn hand_over_next(self) -> Next {
        if self.game.game_started && self.game.order.len() >= 2 {
            Next::NextHand { delay_ms: NEXT_HAND_DELAY_MS }
        } else {
            Next::Idle
        }
    }

    /// The room after the hand was resolved.
    pub open spec fn after_finish(self, walk: Seq<u32>) -> RoomView {
        RoomView { game: self.game.after_resolve(walk), ..self }
    }

    /// What an action has brought about: the hand is to be resolved, the
    /// next street to be dealt, or the next player to act.
    pub open spec fn hand_is_over(self) -> bool {
        self.game.in_hand_count() == 1 || (self.game.betting_complete() && self.game.phase == GamePhase::River)
    }

    pub open spec fn street_is_over(self) -> bool {
        !self.hand_is_over() && self.game.betting_complete()
    }

    /// The room with the next street dealt.
    pub open spec fn with_next_street(self) -> RoomView {
        RoomView { game: self.game.after_advance(), ..self }
    }

    /// Nobody at the table is still to act.
    pub open spec fn nobody_to_act(self) -> bool {
        keep(self.game.players, self.game.order, SeatFilter::Active).len() == 0
    }

    /// The room after the table was settled following an action: the hand
    /// is resolved where it is over; the next street is dealt where the
    /// betting round is over; and the next player is told that it is their
    /// turn where somebody is still to act.
    pub open spec fn after_settle(self, walk: Seq<u32>) -> RoomView {
        if self.hand_is_over() {
            self.after_finish(walk)
        } else if self.street_is_over() {
            if self.with_next_street().nobody_to_act() {
                self.with_next_street()
            } else {
                self.with_next_street().after_notify()
            }
        } else {
            self.after_notify()
        }
    }

    /// What goes out when the table is settled.
    pub open spec fn settle_out(self, walk: Seq<u32>) -> Seq<OutboundView> {
        if self.hand_is_over() {
            self.broadcasts(self.game.resolve_messages(walk))
        } else if self.street_is_over() {
            self.broadcasts(self.game.advance_messages()) + (if self.with_next_street().nobody_to_act() {
                Seq::<OutboundView>::empty()
            } else {
                self.with_next_street().notify_out()
            })
        } else {
            self.notify_out()
        }
    }

    /// What is to happen after the table was settled.
    pub open spec fn settle_next(self, walk: Seq<u32>) -> Next {
        if self.hand_is_over() {
            self.after_finish(walk).hand_over_next()
        } else if self.street_is_over() {
            if self.with_next_street().nobody_to_act() {
                Next::Reveal { delay_ms: RUN_OUT_DELAY_MS }
            } else {
                self.with_next_street().notify_next()
            }
        } else {
            self.notify_next()
        }
    }
}

impl RoomView {
    /// The room with the accepted action applied to the table.
    pub open spec fn acted(self, player_id: u32, action: PlayerAction, amount: u32) -> RoomView {
        RoomView { game: self.game.after_action(player_id, action, amount), ..self }
    }

    /// The room after a betting action of `player_id` was processed: as
    /// before where the action is refused; else the action is applied and
    /// the table settled.
    pub open spec fn after_action(self, walk: Seq<u32>, player_id: u32, action: PlayerAction, amount: u32) -> RoomView {
        if self.game.action_error(player_id, action, amount) is Some {
            self
        } else {
            self.acted(player_id, action, amount).after_settle(walk)
        }
    }

    /// What goes out when a betting action is processed: the error, to the
    /// player alone, where it is refused; else the action and the pot, to
    /// everybody, and what settling the table sends.
    pub open spec fn action_out(self, walk: Seq<u32>, player_id: u32, action: PlayerAction, amount: u32) -> Seq<
        OutboundView,
    > {
        match self.game.action_error(player_id, action, amount) {
            Some(e) => seq![
                self.to_player(
                    player_id,
                    ServerMessageView::Error { message: action_error_text(e, self.game.valid_actions(player_id)) },
                ),
            ],
            None => self.broadcasts(self.game.action_messages(player_id, action, amount)) + self.acted(
                player_id,
                action,
                amount,
            ).settle_out(walk),
        }
    }

    /// What is to happen after a betting action was processed.
    pub open spec fn action_next(self, walk: Seq<u32>, player_id: u32, action: PlayerAction, amount: u32) -> Next {
        if self.game.action_error(player_id, action, amount) is Some {
            Next::Idle
        } else {
            self.acted(player_id, action, amount).settle_next(walk)
        }
    }
}

impl Room {
    /// Tells the player whose turn it is that they are to act, counts the
    /// new turn, and says how the turn is to be timed.
    pub fn notify_turn(&mut self) -> (step: Step)
        ensures
            final(self)@ == old(self)@.after_notify(),
            outbound_views(step.outbound@) == old(self)@.notify_out(),
            step.next == old(self)@.notify_next(),
            old(self)@.wf() ==> final(self)@.wf(),
    {
        let mut outbound: Vec<Outbound> = Vec::new();
        let id: u32 = match self.game_state.current_player_id() {
            Some(id) => id,
            None => {
                proof {
                    assert(outbound_views(outbound@) =~= old(self)@.notify_out());
                }
                return Step { outbound, next: Next::Idle };
            },
        };
        let your_bet: u32 = match self.game_state.players.get(&id) {
            Some(p) => p.current_bet,
            None => 0,
        };
        let valid = self.game_state.valid_actions(id);
        let forced = if contains_action(&valid, PlayerAction::Check) {
            PlayerAction::Check
        } else {
            PlayerAction::Fold
        };
        outbound.push(
            self.send_to_player(
                id,
                ServerMessage::YourTurn {
                    current_bet: self.game_state.current_bet,
                    your_bet,
                    pot: self.game_state.pot,
                    min_raise: self.game_state.min_raise,
                    valid_actions: valid,
                },
            ),
        );
        let turn: u64 = if self.turn_counter == u64::MAX {
            0
        } else {
            self.turn_counter + 1
        };
        if self.game_state.is_current_player_sitting_out() {
            self.turn_counter = turn;
            proof {
                assert(outbound_views(outbound@) =~= old(self)@.notify_out());
            }
            return Step {
                outbound,
                next: Next::AutoAct { player_id: id, action: forced, delay_ms: AUTO_ACT_DELAY_MS },
            };
        }
        outbound.push(
            self.broadcast(ServerMessage::TurnTimerStarted { player_id: id, timeout_secs: TURN_TIMEOUT_SECS }),
        );
        self.turn_counter = turn;
        proof {
            assert(outbound_views(outbound@) =~= old(self)@.notify_out());
        }
        Step { outbound, next: Next::AwaitTurn { player_id: id, turn, timeout_secs: TURN_TIMEOUT_SECS } }
    }

    /// Resolves the hand, walking the players in the order `walk`, and says
    /// whether another hand is to follow.
    pub fn finish_hand_in(&mut self, walk: &Vec<u32>) -> (step: Step)
        requires
            old(self)@.game.wf(),
            is_walk(walk@, old(self)@.game.players),
        ensures
            final(self)@ == old(self)@.after_finish(walk@),
            outbound_views(step.outbound@) == old(self)@.broadcasts(old(self)@.game.resolve_messages(walk@)),
            step.next == final(self)@.hand_over_next(),
            final(self)@.game.wf(),
            final(self)@.game.chips_in_play() <= old(self)@.game.chips_in_play(),
            old(self)@.wf() ==> final(self)@.wf(),
    {
        let msgs = self.game_state.resolve_hand_in(walk);
        let outbound = self.broadcast_all(msgs);
        let next = if self.game_state.game_started && self.game_state.player_order.len() >= 2 {
            Next::NextHand { delay_ms: NEXT_HAND_DELAY_MS }
        } else {
            Next::Idle
        };
        proof {
            assert(outbound_views(outbound@) =~= old(self)@.broadcasts(old(self)@.game.resolve_messages(walk@)));
        }
        Step { outbound, next }
    }

    /// Settles the table after an action, walking the players in the order
    /// `walk` where a hand is resolved.
    pub fn settle_in(&mut self, walk: &Vec<u32>) -> (step: Step)
        requires
            old(self)@.game.wf(),
            old(self)@.game.order.len() > 0,
            is_walk(walk@, old(self)@.game.players),
        ensures
            final(self)@ == old(self)@.after_settle(walk@),
            outbound_views(step.outbound@) == old(self)@.settle_out(walk@),
            step.next == old(self)@.settle_next(walk@),
            final(self)@.game.wf(),
            final(self)@.game.chips_in_play() <= old(self)@.game.chips_in_play(),
            old(self)@.wf() ==> final(self)@.wf(),
    {
        if self.game_state.active_player_count() == 1 {
            return self.finish_hand_in(walk);
        }
        if self.game_state.is_betting_complete() {
            if self.game_state.phase == GamePhase::River {
                return self.finish_hand_in(walk);
            }
            let msgs = self.game_state.advance_phase();
            let mut outbound = self.broadcast_all(msgs);
            proof {
                assert(outbound_views(outbound@) =~= old(self)@.broadcasts(old(self)@.game.advance_messages()));
            }
            let actionable = self.game_state.actionable_players();
            if actionable.len() == 0 {
                proof {
                    assert(outbound_views(outbound@) =~= old(self)@.settle_out(walk@));
                }
                return Step { outbound, next: Next::Reveal { delay_ms: RUN_OUT_DELAY_MS } };
            }
            let ghost first = outbound_views(outbound@);
            let mut turn = self.notify_turn();
            let ghost second = outbound_views(turn.outbound@);
            outbound.append(&mut turn.outbound);
            proof {
                assert(outbound_views(outbound@) =~= first + second);
            }
            return Step { outbound, next: turn.next };
        }
        self.notify_turn()
    }

    /// Processes a betting action of `player_id`, walking the players in
    /// the order `walk` where the action ends the hand.
    pub fn process_action_in(&mut self, walk: &Vec<u32>, player_id: u32, action: PlayerAction, amount: u32) -> (step:
        Step)
        requires
            old(self)@.game.wf(),
            old(self)@.game.bets_fit(),
            is_walk(walk@, old(self)@.game.players),
        ensures
            final(self)@ == old(self)@.after_action(walk@, player_id, action, amount),
            outbound_views(step.outbound@) == old(self)@.action_out(walk@, player_id, action, amount),
            step.next == old(self)@.action_next(walk@, player_id, action, amount),
            final(self)@.game.wf(),
            final(self)@.game.chips_in_play() <= old(self)@.game.chips_in_play(),
            old(self)@.wf() ==> final(self)@.wf(),
    {
        match self.game_state.apply_action(player_id, action, amount) {
            Err(e) => {
                let valid = self.game_state.valid_actions(player_id);
                let mut outbound: Vec<Outbound> = Vec::new();
                outbound.push(
                    self.send_to_player(player_id, ServerMessage::Error { message: action_error_message(e, &valid) }),
                );
                proof {
                    assert(outbound_views(outbound@) =~= seq![
                        old(self)@.to_player(
                            player_id,
                            ServerMessageView::Error {
                                message: action_error_text(e, old(self)@.game.valid_actions(player_id)),
                            },
                        ),
                    ]);
                }
                Step { outbound, next: Next::Idle }
            },
            Ok(msgs) => {
                let mut outbound = self.broadcast_all(msgs);
                proof {
                    assert(outbound_views(outbound@) =~= old(self)@.broadcasts(
                        old(self)@.game.action_messages(player_id, action, amount),
                    ));
                    assert(self@.game.players.dom() =~= old(self)@.game.players.dom());
                }
                let ghost first = outbound_views(outbound@);
                let mut settled = self.settle_in(walk);
                let ghost second = outbound_views(settled.outbound@);
                outbound.append(&mut settled.outbound);
                proof {
                    assert(outbound_views(outbound@) =~= first + second);
                }
                Step { outbound, next: settled.next }
            },
        }
    }
}

/// Trials by which the equities of an all-in are estimated.
pub const EQUITY_TRIALS: usize = 1000;

/// What each hand got out of the trials of a tally.
pub open spec fn equities_of(tally: EquityTally) -> Seq<EquityView> {
    Seq::new(
        tally.shares@.len(),
        |i: int| EquityView { trials: tally.trials, shares: tally.shares@[i]@ },
    )
}

impl RoomView {
    /// The hole cards of every player who holds some, each for that player
    /// alone; the players are walked in the order `walk`.
    pub open spec fn hole_card_out(self, walk: Seq<u32>) -> Seq<OutboundView> {
        let dealt = keep(self.game.players, walk, SeatFilter::Dealt);
        Seq::new(
            dealt.len(),
            |i: int|
                self.to_player(
                    dealt[i],
                    ServerMessageView::HoleCards { cards: self.game.hole_infos(dealt[i])->Some_0 },
                ),
        )
    }

    /// The hole cards of the players who show, in seat order.
    pub open spec fn shown_holes(self) -> Seq<Hand> {
        Seq::new(
            self.game.shown_ids().len(),
            |i: int|
                Hand(
                    self.game.players[self.game.shown_ids()[i]].hole_cards->Some_0.0,
                    self.game.players[self.game.shown_ids()[i]].hole_cards->Some_0.1,
                ),
        )
    }

    /// The reveal of an all-in: the hands of the players who show, each
    /// with its equity, and the board so far. Nothing where fewer than two
    /// players show.
    pub open spec fn allin_reveal(self, equities: Seq<EquityView>) -> Option<OutboundView> {
        let ids = self.game.shown_ids();
        if ids.len() < 2 {
            None
        } else {
            Some(
                self.to_all(
                    ServerMessageView::AllInShowdown {
                        hands: Seq::new(ids.len(), |i: int| (ids[i], self.game.hole_infos(ids[i])->Some_0, equities[i])),
                        community_cards: card_infos(self.game.community_cards),
                    },
                ),
            )
        }
    }

    /// The room after one more street of a run-out: the street is dealt,
    /// and the hand resolved once the river lies open.
    pub open spec fn after_run_out(self, walk: Seq<u32>) -> RoomView {
        let dealt = self.with_next_street();
        if dealt.game.phase == GamePhase::Showdown {
            dealt.after_finish(walk)
        } else {
            dealt
        }
    }

    pub open spec fn run_out_out(self, walk: Seq<u32>) -> Seq<OutboundView> {
        let dealt = self.with_next_street();
        self.broadcasts(self.game.advance_messages()) + (if dealt.game.phase == GamePhase::Showdown {
            dealt.broadcasts(dealt.game.resolve_messages(walk))
        } else {
            Seq::<OutboundView>::empty()
        })
    }

    pub open spec fn run_out_next(self, walk: Seq<u32>) -> Next {
        let dealt = self.with_next_street();
        if dealt.game.phase == GamePhase::Showdown {
            dealt.after_finish(walk).hand_over_next()
        } else {
            Next::RunOut { delay_ms: RUN_OUT_DELAY_MS }
        }
    }

    /// Another hand can follow: the game runs and two seats are taken.
    pub open spec fn hand_can_follow(self) -> bool {
        self.game.game_started && self.game.order.len() >= 2
    }

    /// The room with a new hand dealt from `deck`.
    pub open spec fn with_new_hand(self, raise: Option<Instant>, deck: Seq<Card>) -> RoomView {
        RoomView { game: self.game.after_new_hand(raise, deck), ..self }
    }

    /// What goes out when a hand begins: the announcements to everybody,
    /// the hole cards to each player, and the first turn.
    pub open spec fn new_hand_out(self, raise: Option<Instant>, deck: Seq<Card>, walk: Seq<u32>) -> Seq<OutboundView> {
        let dealt = self.with_new_hand(raise, deck);
        self.broadcasts(self.game.new_hand_messages(raise, deck)) + dealt.hole_card_out(walk) + dealt.notify_out()
    }

    /// Why the game cannot be started, in the words of the answer; nothing
    /// where it can.
    pub open spec fn start_error(self) -> Option<Seq<char>> {
        if self.game.game_started {
            Some("Game already started"@)
        } else if self.game.players.len() < 2 {
            Some("Need at least 2 players to start"@)
        } else {
            None
        }
    }

    /// The room as the game starts: the stack for late players is fixed,
    /// and the time of the blinds begins to run where they rise.
    pub open spec fn started(self, now: Instant) -> RoomView {
        RoomView {
            game: Table {
                game_started: true,
                starting_chips: (self.game.starting_bbs * self.game.big_blind) as u32,
                last_blind_increase: if self.game.blind_config.spec_is_enabled() {
                    Some(now)
                } else {
                    self.game.last_blind_increase
                },
                ..self.game
            },
            ..self
        }
    }

    /// The timeout of the turn `expected_turn` of `player_id` still
    /// applies: no turn has begun since, the game runs, and it is that
    /// player's turn.
    pub open spec fn timeout_applies(self, expected_turn: u64, player_id: u32) -> bool {
        self.turn_counter == expected_turn && self.game.game_started && self.game.current_player_id() == Some(
            player_id,
        )
    }

    /// A player whose time is up and who cannot check is sat out before
    /// they are folded, unless they sit out already.
    pub open spec fn timeout_sits_out(self, player_id: u32) -> bool {
        self.forced_action(player_id) == PlayerAction::Fold && self.game.players.contains_key(player_id)
            && !self.game.players[player_id].sitting_out
    }

    /// The room with `player_id` sitting out or in.
    pub open spec fn with_sitting(self, player_id: u32, out: bool) -> RoomView {
        RoomView { game: self.game.with_sitting(player_id, out), ..self }
    }

    /// A request of `player_id` to sit out or in changes something: the
    /// player is seated and does not sit that way already.
    pub open spec fn sitting_changes(self, player_id: u32, out: bool) -> bool {
        self.game.players.contains_key(player_id) && self.game.players[player_id].sitting_out != out
    }
}

impl Room {
    /// The hole cards of every player who holds some, each addressed to
    /// that player alone.
    pub fn send_hole_cards(&self, walk: &Vec<u32>) -> (out: Vec<Outbound>)
        ensures
            outbound_views(out@) == self@.hole_card_out(walk@),
    {
        let dealt = self.game_state.keep_ids(walk, SeatFilter::Dealt);
        let mut out: Vec<Outbound> = Vec::new();
        let mut i: usize = 0;
        proof {
            lemma_keep_members(self@.game.players, walk@, SeatFilter::Dealt);
        }
        while i < dealt.len()
            invariant
                i <= dealt.len(),
                dealt@ == keep(self@.game.players, walk@, SeatFilter::Dealt),
                forall|k: int|
                    0 <= k < dealt@.len() ==> SeatFilter::Dealt.accepts(self@.game.players, #[trigger] dealt@[k]),
                out@.len() == i,
                forall|k: int|
                    0 <= k < i ==> (#[trigger] out@[k])@ == self@.to_player(
                        dealt@[k],
                        ServerMessageView::HoleCards { cards: self@.game.hole_infos(dealt@[k])->Some_0 },
                    ),
            decreases dealt.len() - i,
        {
            let id: u32 = dealt[i];
            assert(SeatFilter::Dealt.accepts(self@.game.players, dealt@[i as int]));
            match self.game_state.hole_cards_of(id) {
                Some(cards) => {
                    out.push(self.send_to_player(id, ServerMessage::HoleCards { cards }));
                },
                None => {
                    proof {
                        assert(false);
                    }
                },
            }
            i = i + 1;
        }
        proof {
            assert(outbound_views(out@) =~= self@.hole_card_out(walk@));
        }
        out
    }

    /// The hole cards of the players who show, in seat order.
    pub fn shown_hole_cards(&self) -> (hands: Vec<Hand>)
        ensures
            hands@ == self@.shown_holes(),
    {
        let ids = self.game_state.keep_seats(SeatFilter::Showing);
        let mut hands: Vec<Hand> = Vec::new();
        let mut i: usize = 0;
        proof {
            lemma_keep_members(self@.game.players, self@.game.order, SeatFilter::Showing);
        }
        while i < ids.len()
            invariant
                i <= ids.len(),
                ids@ == self@.game.shown_ids(),
                forall|k: int|
                    0 <= k < ids@.len() ==> SeatFilter::Showing.accepts(self@.game.players, #[trigger] ids@[k]),
                hands@.len() == i,
                forall|k: int| 0 <= k < i ==> hands@[k] == self@.shown_holes()[k],
            decreases ids.len() - i,
        {
            assert(SeatFilter::Showing.accepts(self@.game.players, ids@[i as int]));
            match self.game_state.players.get(&ids[i]) {
                Some(p) => match p.hole_cards {
                    Some((a, b)) => {
                        hands.push(Hand(a, b));
                    },
                    None => {
                        proof {
                            assert(false);
                        }
                    },
                },
                None => {
                    proof {
                        assert(false);
                    }
                },
            }
            i = i + 1;
        }
        proof {
            assert(hands@ =~= self@.shown_holes());
        }
        hands
    }

    /// The reveal of an all-in with the given equities, one for each
    /// player who shows.
    pub fn allin_reveal_with(&self, equities: &Vec<Equity>) -> (out: Option<Outbound>)
        requires
            equities@.len() == self@.game.shown_ids().len(),
        ensures
            match out {
                Some(o) => Some(o@) == self@.allin_reveal(equities@.map_values(|e: Equity| e@)),
                None => self@.allin_reveal(equities@.map_values(|e: Equity| e@)) is None,
            },
    {
        let ids = self.game_state.keep_seats(SeatFilter::Showing);
        if ids.len() < 2 {
            return None;
        }
        let mut hands: Vec<(u32, [CardInfo; 2], Equity)> = Vec::new();
        let mut i: usize = 0;
        proof {
            lemma_keep_members(self@.game.players, self@.game.order, SeatFilter::Showing);
        }
        while i < ids.len()
            invariant
                i <= ids.len(),
                ids@ == self@.game.shown_ids(),
                equities@.len() == ids@.len(),
                forall|k: int|
                    0 <= k < ids@.len() ==> SeatFilter::Showing.accepts(self@.game.players, #[trigger] ids@[k]),
                hands@.len() == i,
                forall|k: int|
                    0 <= k < i ==> ((#[trigger] hands@[k]).0, hands@[k].1@, hands@[k].2@) == (
                        ids@[k],
                        self@.game.hole_infos(ids@[k])->Some_0,
                        equities@[k]@,
                    ),
            decreases ids.len() - i,
        {
            let id: u32 = ids[i];
            assert(SeatFilter::Showing.accepts(self@.game.players, ids@[i as int]));
            match self.game_state.hole_cards_of(id) {
                Some(cards) => {
                    hands.push((id, cards, equities[i].clone()));
                },
                None => {
                    proof {
                        assert(false);
                    }
                },
            }
            i = i + 1;
        }
        let message = ServerMessage::AllInShowdown {
            hands,
            community_cards: cards_to_infos(&self.game_state.community_cards),
        };
        proof {
            let shown = equities@.map_values(|e: Equity| e@);
            let expected = self@.allin_reveal(shown)->Some_0;
            assert(equity_hand_views(hands@) =~= Seq::new(
                ids@.len(),
                |i: int| (ids@[i], self@.game.hole_infos(ids@[i])->Some_0, shown[i]),
            ));
            assert(message@ == expected.message);
        }
        Some(self.broadcast(message))
    }

    /// Reveals the hands of an all-in, with equities estimated by trials:
    /// the cards that nobody holds are shuffled and the board is filled from
    /// them, `EQUITY_TRIALS` times.
    pub fn allin_reveal(&self) -> (out: Option<Outbound>)
        ensures
            match out {
                Some(o) => exists|tally: EquityTally, decks: Seq<Seq<Card>>, history: Seq<EquityTally>|
                    #![trigger is_trial_run(self@.shown_holes(), self@.game.board(), decks, history), tally.wf()]
                    {
                        &&& tally.wf()
                        &&& is_trial_run(self@.shown_holes(), self@.game.board(), decks, history)
                        &&& decks.len() == EQUITY_TRIALS
                        &&& history.last() == tally
                        &&& Some(o@) == self@.allin_reveal(equities_of(tally))
                    },
                None => self@.game.shown_ids().len() < 2,
            },
    {
        let hands = self.shown_hole_cards();
        if hands.len() < 2 {
            return None;
        }
        let board = self.game_state.build_board();
        let equities = calculate_equity_multi(&hands, &board, EQUITY_TRIALS);
        let out = self.allin_reveal_with(&equities);
        proof {
            let w = choose|tally: EquityTally, decks: Seq<Seq<Card>>, history: Seq<EquityTally>|
                #![trigger is_trial_run(hands@, board, decks, history), tally.wf()]
                {
                    &&& tally.wf()
                    &&& tally.trials == EQUITY_TRIALS
                    &&& tally.hands() == hands@.len()
                    &&& is_trial_run(hands@, board, decks, history)
                    &&& decks.len() == EQUITY_TRIALS
                    &&& history.last() == tally
                    &&& forall|i: int|
                        0 <= i < hands@.len() ==> (#[trigger] equities@[i]).trials == tally.trials
                            && equities@[i].shares@ == tally.shares@[i]@
                };
            let tally = w.0;
            assert(equities@.map_values(|e: Equity| e@) =~= equities_of(tally));
            assert(is_trial_run(self@.shown_holes(), self@.game.board(), w.1, w.2) && tally.wf());
        }
        out
    }

    /// Deals one more street of a run-out, and resolves the hand once the
    /// river lies open; the players are walked in the order `walk`.
    pub fn run_out_step_in(&mut self, walk: &Vec<u32>) -> (step: Step)
        requires
            old(self)@.game.wf(),
            old(self)@.game.order.len() > 0,
            is_walk(walk@, old(self)@.game.players),
        ensures
            final(self)@ == old(self)@.after_run_out(walk@),
            outbound_views(step.outbound@) == old(self)@.run_out_out(walk@),
            step.next == old(self)@.run_out_next(walk@),
            final(self)@.game.wf(),
            final(self)@.game.chips_in_play() <= old(self)@.game.chips_in_play(),
            old(self)@.wf() ==> final(self)@.wf(),
    {
        let msgs = self.game_state.advance_phase();
        let mut outbound = self.broadcast_all(msgs);
        proof {
            assert(outbound_views(outbound@) =~= old(self)@.broadcasts(old(self)@.game.advance_messages()));
            assert(self@.game.players.dom() =~= old(self)@.game.players.dom());
        }
        if self.game_state.phase == GamePhase::Showdown {
            let ghost first = outbound_views(outbound@);
            let mut done = self.finish_hand_in(walk);
            let ghost second = outbound_views(done.outbound@);
            outbound.append(&mut done.outbound);
            proof {
                assert(outbound_views(outbound@) =~= first + second);
            }
            return Step { outbound, next: done.next };
        }
        proof {
            assert(outbound_views(outbound@) =~= old(self)@.run_out_out(walk@));
        }
        Step { outbound, next: Next::RunOut { delay_ms: RUN_OUT_DELAY_MS } }
    }

    /// Starts a hand with `deck`, sends everybody their hole cards, walking
    /// the players in the order `walk`, and begins the first turn.
    pub fn deal_hand(&mut self, raise: Option<Instant>, deck: Vec<Card>, walk: &Vec<u32>) -> (step: Step)
        requires
            old(self)@.game.can_begin_hand(raise is Some, deck@.len()),
            is_walk(walk@, old(self)@.game.players),
        ensures
            final(self)@ == old(self)@.with_new_hand(raise, deck@).after_notify(),
            outbound_views(step.outbound@) == old(self)@.new_hand_out(raise, deck@, walk@),
            step.next == old(self)@.with_new_hand(raise, deck@).notify_next(),
            final(self)@.game.wf(),
            final(self)@.game.bets_fit(),
            final(self)@.game.chips_in_play() == crate::game::total_chips(old(self)@.game.players),
            old(self)@.wf() ==> final(self)@.wf(),
    {
        let msgs = self.game_state.begin_hand(raise, deck);
        let mut outbound = self.broadcast_all(msgs);
        proof {
            assert(outbound_views(outbound@) =~= old(self)@.broadcasts(old(self)@.game.new_hand_messages(raise, deck@)));
        }
        let ghost first = outbound_views(outbound@);
        let mut cards = self.send_hole_cards(walk);
        let ghost second = outbound_views(cards@);
        outbound.append(&mut cards);
        let mut turn = self.notify_turn();
        let ghost third = outbound_views(turn.outbound@);
        outbound.append(&mut turn.outbound);
        proof {
            assert(outbound_views(outbound@) =~= first + second + third);
        }
        Step { outbound, next: turn.next }
    }

    /// Starts the next hand once the pause after a hand is over; does
    /// nothing unless the game runs and two seats are taken.
    pub fn start_next_hand(&mut self) -> (step: Step)
        requires
            old(self)@.hand_can_follow() ==> old(self)@.game.can_begin_hand(
                old(self)@.game.blind_config.spec_is_enabled(),
                52,
            ),
        ensures
            !old(self)@.hand_can_follow() ==> final(self)@ == old(self)@ && step.outbound@.len() == 0 && step.next
                == Next::Idle,
            old(self)@.hand_can_follow() ==> exists|
                elapsed: Option<u64>,
                now: Instant,
                deck: Seq<Card>,
                walk: Seq<u32>,
            |
                #![trigger old(self)@.new_hand_out(old(self)@.game.raise_at(elapsed, now), deck, walk)]
                {
                    let raise = old(self)@.game.raise_at(elapsed, now);
                    &&& elapsed is Some <==> old(self)@.game.last_blind_increase is Some
                    &&& deck.to_multiset() == crate::cards::fresh_deck().to_multiset()
                    &&& is_walk(walk, old(self)@.game.players)
                    &&& final(self)@ == old(self)@.with_new_hand(raise, deck).after_notify()
                    &&& outbound_views(step.outbound@) == old(self)@.new_hand_out(raise, deck, walk)
                    &&& step.next == old(self)@.with_new_hand(raise, deck).notify_next()
                },
            old(self)@.hand_can_follow() ==> final(self)@.game.wf() && final(self)@.game.bets_fit(),
            old(self)@.wf() ==> final(self)@.wf(),
    {
        if !(self.game_state.game_started && self.game_state.player_order.len() >= 2) {
            return Step { outbound: Vec::new(), next: Next::Idle };
        }
        let (elapsed, now, deck) = self.game_state.draw_hand();
        let raise = self.game_state.rise_moment(elapsed, now);
        let walk = self.game_state.player_ids();
        self.deal_hand(raise, deck, &walk)
    }

    /// Answers a request to sit out (`out`) or to sit back in.
    pub fn set_sitting(&mut self, player_id: u32, out: bool) -> (step: Step)
        ensures
            final(self)@ == (if old(self)@.sitting_changes(player_id, out) {
                old(self)@.with_sitting(player_id, out)
            } else {
                old(self)@
            }),
            outbound_views(step.outbound@) == (if old(self)@.sitting_changes(player_id, out) {
                seq![
                    old(self)@.to_all(
                        if out {
                            ServerMessageView::PlayerSatOut { player_id }
                        } else {
                            ServerMessageView::PlayerSatIn { player_id }
                        },
                    ),
                ]
            } else {
                Seq::<OutboundView>::empty()
            }),
            step.next == Next::Idle,
            old(self)@.wf() ==> final(self)@.wf(),
    {
        let mut outbound: Vec<Outbound> = Vec::new();
        let sitting: Option<bool> = match self.game_state.players.get(&player_id) {
            Some(p) => Some(p.sitting_out),
            None => None,
        };
        match sitting {
            Some(now) => {
                if now != out {
                    if out {
                        self.game_state.set_sitting_out(player_id);
                        outbound.push(self.broadcast(ServerMessage::PlayerSatOut { player_id }));
                    } else {
                        self.game_state.set_sitting_in(player_id);
                        outbound.push(self.broadcast(ServerMessage::PlayerSatIn { player_id }));
                    }
                }
            },
            None => {},
        }
        proof {
            assert(outbound_views(outbound@) =~= (if old(self)@.sitting_changes(player_id, out) {
                seq![
                    old(self)@.to_all(
                        if out {
                            ServerMessageView::PlayerSatOut { player_id }
                        } else {
                            ServerMessageView::PlayerSatIn { player_id }
                        },
                    ),
                ]
            } else {
                Seq::<OutboundView>::empty()
            }));
        }
        Step { outbound, next: Next::Idle }
    }

    /// Switches late entry on or off for the host; anybody else gets an
    /// error.
    pub fn toggle_late_entry(&mut self, player_id: u32) -> (step: Step)
        ensures
            old(self)@.game.host_id == player_id ==> final(self)@ == (RoomView {
                game: Table { allow_late_entry: !old(self)@.game.allow_late_entry, ..old(self)@.game },
                ..old(self)@
            }) && outbound_views(step.outbound@) == seq![
                old(self)@.to_all(ServerMessageView::LateEntryChanged { allowed: !old(self)@.game.allow_late_entry }),
            ],
            old(self)@.game.host_id != player_id ==> final(self)@ == old(self)@ && outbound_views(step.outbound@)
                == seq![
                old(self)@.to_player(
                    player_id,
                    ServerMessageView::Error { message: "Only the host can toggle late entry"@ },
                ),
            ],
            step.next == Next::Idle,
            old(self)@.wf() ==> final(self)@.wf(),
    {
        let mut outbound: Vec<Outbound> = Vec::new();
        if self.game_state.host_id != player_id {
            outbound.push(
                self.send_to_player(
                    player_id,
                    ServerMessage::Error { message: "Only the host can toggle late entry".to_string() },
                ),
            );
            proof {
                assert(outbound_views(outbound@) =~= seq![
                    old(self)@.to_player(
                        player_id,
                        ServerMessageView::Error { message: "Only the host can toggle late entry"@ },
                    ),
                ]);
            }
            return Step { outbound, next: Next::Idle };
        }
        self.game_state.allow_late_entry = !self.game_state.allow_late_entry;
        outbound.push(self.broadcast(ServerMessage::LateEntryChanged { allowed: self.game_state.allow_late_entry }));
        proof {
            assert(outbound_views(outbound@) =~= seq![
                old(self)@.to_all(ServerMessageView::LateEntryChanged { allowed: !old(self)@.game.allow_late_entry }),
            ]);
        }
        Step { outbound, next: Next::Idle }
    }

    /// Acts for a player whose time is up, if the turn `expected_turn` is
    /// still theirs: checks where that is allowed; else sits them out and
    /// folds.
    pub fn force_timeout_action_in(&mut self, walk: &Vec<u32>, expected_turn: u64, player_id: u32) -> (step: Step)
        requires
            old(self)@.game.wf(),
            old(self)@.game.bets_fit(),
            is_walk(walk@, old(self)@.game.players),
        ensures
            !old(self)@.timeout_applies(expected_turn, player_id) ==> final(self)@ == old(self)@
                && step.outbound@.len() == 0 && step.next == Next::Idle,
            old(self)@.timeout_applies(expected_turn, player_id) ==> {
                let action = old(self)@.forced_action(player_id);
                let sat = if old(self)@.timeout_sits_out(player_id) {
                    old(self)@.with_sitting(player_id, true)
                } else {
                    old(self)@
                };
                &&& final(self)@ == sat.after_action(walk@, player_id, action, 0)
                &&& outbound_views(step.outbound@) == (if old(self)@.timeout_sits_out(player_id) {
                    seq![old(self)@.to_all(ServerMessageView::PlayerSatOut { player_id })]
                } else {
                    Seq::<OutboundView>::empty()
                }) + sat.action_out(walk@, player_id, action, 0)
                &&& step.next == sat.action_next(walk@, player_id, action, 0)
            },
            final(self)@.game.wf(),
            old(self)@.wf() ==> final(self)@.wf(),
    {
        if self.turn_counter != expected_turn || !self.game_state.game_started
            || self.game_state.current_player_id() != Some(player_id) {
            return Step { outbound: Vec::new(), next: Next::Idle };
        }
        let valid = self.game_state.valid_actions(player_id);
        let action = if contains_action(&valid, PlayerAction::Check) {
            PlayerAction::Check
        } else {
            PlayerAction::Fold
        };
        proof {
            crate::game::lemma_valid_action_meaning(self@.game, player_id);
            crate::game::lemma_with_sitting_chips(self@.game, player_id, true);
        }
        let mut outbound: Vec<Outbound> = Vec::new();
        if action == PlayerAction::Fold {
            let sat = self.set_sitting(player_id, true);
            outbound = sat.outbound;
            proof {
                crate::game::lemma_valid_action_meaning(self@.game, player_id);
                assert(self@.game.players.dom() =~= old(self)@.game.players.dom());
            }
        }
        proof {
            assert(outbound_views(outbound@) =~= (if old(self)@.timeout_sits_out(player_id) {
                seq![old(self)@.to_all(ServerMessageView::PlayerSatOut { player_id })]
            } else {
                Seq::<OutboundView>::empty()
            }));
        }
        let ghost first = outbound_views(outbound@);
        let mut acted = self.process_action_in(walk, player_id, action, 0);
        let ghost second = outbound_views(acted.outbound@);
        outbound.append(&mut acted.outbound);
        proof {
            assert(outbound_views(outbound@) =~= first + second);
        }
        Step { outbound, next: acted.next }
    }
}

impl RoomView {
    /// What starting the game needs of the machine's numbers: the stack
    /// for late players can be counted, and a hand can begin.
    pub open spec fn can_start(self) -> bool {
        self.game.starting_bbs * self.game.big_blind <= u32::MAX && self.game.can_begin_hand(
            self.game.blind_config.spec_is_enabled(),
            52,
        )
    }

    /// A betting action of `player_id` takes the room to `after`, sends
    /// `out` and asks for `next`, for some order in which the players are
    /// walked.
    pub open spec fn action_step(
        self,
        after: RoomView,
        out: Seq<OutboundView>,
        next: Next,
        player_id: u32,
        action: PlayerAction,
        amount: u32,
    ) -> bool {
        exists|walk: Seq<u32>|
            #![trigger self.after_action(walk, player_id, action, amount)]
            {
                &&& is_walk(walk, self.game.players)
                &&& after == self.after_action(walk, player_id, action, amount)
                &&& out == self.action_out(walk, player_id, action, amount)
                &&& next == self.action_next(walk, player_id, action, amount)
            }
    }

    /// A request of `player_id` to start the game takes the room to
    /// `after`, sends `out` and asks for `next`: an error goes to the
    /// player where the game runs already or fewer than two players are
    /// seated; else the game starts, and the first hand with it, for some
    /// moment of the start, some reading of the clock of the blinds, some
    /// shuffled deck, and some order in which the players are walked.
    pub open spec fn start_step(self, after: RoomView, out: Seq<OutboundView>, next: Next, player_id: u32) -> bool {
        match self.start_error() {
            Some(text) => after == self && out == seq![
                self.to_player(player_id, ServerMessageView::Error { message: text }),
            ] && next == Next::Idle,
            None => exists|now: Instant, elapsed: Option<u64>, at: Instant, deck: Seq<Card>, walk: Seq<u32>|
                #![trigger self.started(now).new_hand_out(self.started(now).game.raise_at(elapsed, at), deck, walk)]
                {
                    let raise = self.started(now).game.raise_at(elapsed, at);
                    &&& elapsed is Some <==> self.started(now).game.last_blind_increase is Some
                    &&& deck.to_multiset() == crate::cards::fresh_deck().to_multiset()
                    &&& is_walk(walk, self.game.players)
                    &&& after == self.started(now).with_new_hand(raise, deck).after_notify()
                    &&& out == seq![self.to_all(ServerMessageView::GameStarted)] + self.started(now).new_hand_out(
                        raise,
                        deck,
                        walk,
                    )
                    &&& next == self.started(now).with_new_hand(raise, deck).notify_next()
                },
        }
    }

    /// A request of `player_id` to sit out (`out_of_play`) or back in takes
    /// the room to `after` and sends `out`.
    pub open spec fn sitting_step(self, after: RoomView, out: Seq<OutboundView>, player_id: u32, out_of_play: bool) -> bool {
        &&& after == (if self.sitting_changes(player_id, out_of_play) {
            self.with_sitting(player_id, out_of_play)
        } else {
            self
        })
        &&& out == (if self.sitting_changes(player_id, out_of_play) {
            seq![
                self.to_all(
                    if out_of_play {
                        ServerMessageView::PlayerSatOut { player_id }
                    } else {
                        ServerMessageView::PlayerSatIn { player_id }
                    },
                ),
            ]
        } else {
            Seq::<OutboundView>::empty()
        })
    }

    /// A request of `player_id` to switch late entry takes the room to
    /// `after` and sends `out`.
    pub open spec fn toggle_step(self, after: RoomView, out: Seq<OutboundView>, player_id: u32) -> bool {
        if self.game.host_id == player_id {
            after == (RoomView {
                game: Table { allow_late_entry: !self.game.allow_late_entry, ..self.game },
                ..self
            }) && out == seq![
                self.to_all(ServerMessageView::LateEntryChanged { allowed: !self.game.allow_late_entry }),
            ]
        } else {
            after == self && out == seq![
                self.to_player(player_id, ServerMessageView::Error { message: "Only the host can toggle late entry"@ }),
            ]
        }
    }

    /// The message `msg` of the seated player `player_id` takes the room to
    /// `after`, sends `out` and asks for `next`.
    pub open spec fn message_step(
        self,
        after: RoomView,
        out: Seq<OutboundView>,
        next: Next,
        player_id: u32,
        msg: ClientMessage,
    ) -> bool {
        match msg {
            ClientMessage::Ping => after == self && next == Next::Idle && out == seq![
                self.to_player(player_id, ServerMessageView::Pong),
            ],
            ClientMessage::GetPlayers => after == self && next == Next::Idle && exists|walk: Seq<u32>|
                #![trigger player_infos(self.game.players, walk)]
                is_walk(walk, self.game.players) && out == seq![
                    self.to_player(
                        player_id,
                        ServerMessageView::PlayerList { players: player_infos(self.game.players, walk) },
                    ),
                ],
            ClientMessage::Chat { message } => after == self && next == Next::Idle && out == seq![
                self.to_all(ServerMessageView::ChatMessage { player_id, message: message@ }),
            ],
            ClientMessage::StartGame => self.start_step(after, out, next, player_id),
            ClientMessage::Fold => self.action_step(after, out, next, player_id, PlayerAction::Fold, 0),
            ClientMessage::Check => self.action_step(after, out, next, player_id, PlayerAction::Check, 0),
            ClientMessage::Call => self.action_step(after, out, next, player_id, PlayerAction::Call, 0),
            ClientMessage::Raise { amount } => self.action_step(after, out, next, player_id, PlayerAction::Raise, amount),
            ClientMessage::AllIn => self.action_step(after, out, next, player_id, PlayerAction::AllIn, 0),
            ClientMessage::SitOut => next == Next::Idle && self.sitting_step(after, out, player_id, true),
            ClientMessage::SitIn => next == Next::Idle && self.sitting_step(after, out, player_id, false),
            ClientMessage::ToggleLateEntry => next == Next::Idle && self.toggle_step(after, out, player_id),
            _ => after == self && next == Next::Idle && out == seq![
                self.to_player(player_id, ServerMessageView::Error { message: "Already in a room"@ }),
            ],
        }
    }

    /// What a message needs of the machine's numbers: the chips at the
    /// table and every stack with its bet fit, and the game can start
    /// where the message asks for that.
    pub open spec fn can_process(self, msg: ClientMessage) -> bool {
        &&& self.game.wf()
        &&& self.game.bets_fit()
        &&& msg is StartGame && self.start_error() is None ==> self.can_start()
    }
}

fn one(out: Outbound) -> (list: Vec<Outbound>)
    ensures
        outbound_views(list@) == seq![out@],
{
    let mut list: Vec<Outbound> = Vec::new();
    list.push(out);
    assert(outbound_views(list@) =~= seq![out@]);
    list
}

impl Room {
    /// Processes a betting action of `player_id`.
    pub fn process_action(&mut self, player_id: u32, action: PlayerAction, amount: u32) -> (step: Step)
        requires
            old(self)@.game.wf(),
            old(self)@.game.bets_fit(),
        ensures
            old(self)@.action_step(final(self)@, outbound_views(step.outbound@), step.next, player_id, action, amount),
            final(self)@.game.wf(),
            final(self)@.game.chips_in_play() <= old(self)@.game.chips_in_play(),
            old(self)@.wf() ==> final(self)@.wf(),
    {
        let walk = self.game_state.player_ids();
        let step = self.process_action_in(&walk, player_id, action, amount);
        proof {
            assert(self@ == old(self)@.after_action(walk@, player_id, action, amount));
        }
        step
    }

    /// Acts for a player whose time is up, if the turn `expected_turn` is
    /// still theirs.
    pub fn force_timeout_action(&mut self, expected_turn: u64, player_id: u32) -> (step: Step)
        requires
            old(self)@.game.wf(),
            old(self)@.game.bets_fit(),
        ensures
            !old(self)@.timeout_applies(expected_turn, player_id) ==> final(self)@ == old(self)@
                && step.outbound@.len() == 0 && step.next == Next::Idle,
            old(self)@.timeout_applies(expected_turn, player_id) ==> exists|walk: Seq<u32>|
                #![trigger is_walk(walk, old(self)@.game.players)]
                {
                    let action = old(self)@.forced_action(player_id);
                    let sat = if old(self)@.timeout_sits_out(player_id) {
                        old(self)@.with_sitting(player_id, true)
                    } else {
                        old(self)@
                    };
                    &&& is_walk(walk, old(self)@.game.players)
                    &&& final(self)@ == sat.after_action(walk, player_id, action, 0)
                    &&& outbound_views(step.outbound@) == (if old(self)@.timeout_sits_out(player_id) {
                        seq![old(self)@.to_all(ServerMessageView::PlayerSatOut { player_id })]
                    } else {
                        Seq::<OutboundView>::empty()
                    }) + sat.action_out(walk, player_id, action, 0)
                    &&& step.next == sat.action_next(walk, player_id, action, 0)
                },
            final(self)@.game.wf(),
            old(self)@.wf() ==> final(self)@.wf(),
    {
        let walk = self.game_state.player_ids();
        let step = self.force_timeout_action_in(&walk, expected_turn, player_id);
        proof {
            if old(self)@.timeout_applies(expected_turn, player_id) {
                let action = old(self)@.forced_action(player_id);
                let sat = if old(self)@.timeout_sits_out(player_id) {
                    old(self)@.with_sitting(player_id, true)
                } else {
                    old(self)@
                };
                assert(self@ == sat.after_action(walk@, player_id, action, 0));
                assert(is_walk(walk@, old(self)@.game.players));
            }
        }
        step
    }

    /// Deals one more street of a run-out, and resolves the hand once the
    /// river lies open.
    pub fn run_out_step(&mut self) -> (step: Step)
        requires
            old(self)@.game.wf(),
            old(self)@.game.order.len() > 0,
        ensures
            exists|walk: Seq<u32>|
                #![trigger old(self)@.after_run_out(walk)]
                {
                    &&& is_walk(walk, old(self)@.game.players)
                    &&& final(self)@ == old(self)@.after_run_out(walk)
                    &&& outbound_views(step.outbound@) == old(self)@.run_out_out(walk)
                    &&& step.next == old(self)@.run_out_next(walk)
                },
            final(self)@.game.wf(),
            final(self)@.game.chips_in_play() <= old(self)@.game.chips_in_play(),
            old(self)@.wf() ==> final(self)@.wf(),
    {
        let walk = self.game_state.player_ids();
        let step = self.run_out_step_in(&walk);
        proof {
            assert(self@ == old(self)@.after_run_out(walk@));
        }
        step
    }

    /// Whether the game can start as far as the machine's numbers go.
    pub fn can_start(&self) -> (b: bool)
        ensures
            b == self@.can_start(),
    {
        product_fits(self.game_state.starting_bbs, self.game_state.big_blind) && self.game_state.can_start_hand(
            self.game_state.blind_config.is_enabled(),
            52,
        )
    }

    /// Whether the message can be processed as far as the machine's
    /// numbers go.
    pub fn can_process(&self, msg: &ClientMessage) -> (b: bool)
        ensures
            b == self@.can_process(*msg),
    {
        if !self.game_state.chips_fit() || !self.game_state.bets_in_range() {
            return false;
        }
        match msg {
            ClientMessage::StartGame => {
                if self.game_state.game_started || self.game_state.player_count() < 2 {
                    true
                } else {
                    self.can_start()
                }
            },
            _ => true,
        }
    }

    /// Starts the game and its first hand, where `player_id` may ask for
    /// it.
    pub fn start_game(&mut self, player_id: u32) -> (step: Step)
        requires
            old(self)@.start_error() is None ==> old(self)@.can_start(),
        ensures
            old(self)@.start_step(final(self)@, outbound_views(step.outbound@), step.next, player_id),
            old(self)@.game.wf() && old(self)@.game.bets_fit() ==> final(self)@.game.wf() && final(self)@.game.bets_fit(),
            old(self)@.wf() ==> final(self)@.wf(),
    {
        if self.game_state.game_started {
            let out = one(
                self.send_to_player(player_id, ServerMessage::Error { message: "Game already started".to_string() }),
            );
            return Step { outbound: out, next: Next::Idle };
        }
        if self.game_state.player_count() < 2 {
            let out = one(
                self.send_to_player(
                    player_id,
                    ServerMessage::Error { message: "Need at least 2 players to start".to_string() },
                ),
            );
            return Step { outbound: out, next: Next::Idle };
        }
        let now = clock_now();
        let mut outbound = one(self.broadcast(ServerMessage::GameStarted));
        self.game_state.game_started = true;
        self.game_state.starting_chips = self.game_state.starting_bbs * self.game_state.big_blind;
        if self.game_state.blind_config.is_enabled() {
            self.game_state.last_blind_increase = Some(now);
        }
        assert(self@ == old(self)@.started(now));
        let (elapsed, at, deck) = self.game_state.draw_hand();
        let raise = self.game_state.rise_moment(elapsed, at);
        let walk = self.game_state.player_ids();
        let ghost first = outbound_views(outbound@);
        let mut dealt = self.deal_hand(raise, deck, &walk);
        let ghost second = outbound_views(dealt.outbound@);
        outbound.append(&mut dealt.outbound);
        proof {
            assert(outbound_views(outbound@) =~= first + second);
            assert(outbound_views(outbound@) == seq![old(self)@.to_all(ServerMessageView::GameStarted)] + old(
                self,
            )@.started(now).new_hand_out(raise, deck@, walk@));
        }
        Step { outbound, next: dealt.next }
    }

    /// Processes a message of the seated player `player_id`.
    pub fn process_client_message(&mut self, player_id: u32, msg: &ClientMessage) -> (step: Step)
        requires
            old(self)@.can_process(*msg),
        ensures
            old(self)@.message_step(final(self)@, outbound_views(step.outbound@), step.next, player_id, *msg),
            final(self)@.game.wf(),
            old(self)@.wf() ==> final(self)@.wf(),
    {
        match msg {
            ClientMessage::Ping => Step {
                outbound: one(self.send_to_player(player_id, ServerMessage::Pong)),
                next: Next::Idle,
            },
            ClientMessage::GetPlayers => {
                let walk = self.game_state.player_ids();
                let players = self.game_state.player_list(&walk);
                let out = one(self.send_to_player(player_id, ServerMessage::PlayerList { players }));
                proof {
                    assert(outbound_views(out@) == seq![
                        self@.to_player(
                            player_id,
                            ServerMessageView::PlayerList { players: player_infos(self@.game.players, walk@) },
                        ),
                    ]);
                }
                Step { outbound: out, next: Next::Idle }
            },
            ClientMessage::Chat { message } => Step {
                outbound: one(self.broadcast(ServerMessage::ChatMessage { player_id, message: message.clone() })),
                next: Next::Idle,
            },
            ClientMessage::StartGame => self.start_game(player_id),
            ClientMessage::Fold => self.process_action(player_id, PlayerAction::Fold, 0),
            ClientMessage::Check => self.process_action(player_id, PlayerAction::Check, 0),
            ClientMessage::Call => self.process_action(player_id, PlayerAction::Call, 0),
            ClientMessage::Raise { amount } => self.process_action(player_id, PlayerAction::Raise, *amount),
            ClientMessage::AllIn => self.process_action(player_id, PlayerAction::AllIn, 0),
            ClientMessage::SitOut => {
                proof {
                    crate::game::lemma_with_sitting_chips(self@.game, player_id, true);
                }
                self.set_sitting(player_id, true)
            },
            ClientMessage::SitIn => {
                proof {
                    crate::game::lemma_with_sitting_chips(self@.game, player_id, false);
                }
                self.set_sitting(player_id, false)
            },
            ClientMessage::ToggleLateEntry => self.toggle_late_entry(player_id),
            _ => Step {
                outbound: one(
                    self.send_to_player(player_id, ServerMessage::Error { message: "Already in a room".to_string() }),
                ),
                next: Next::Idle,
            },
        }
    }
}

fn contains_action(actions: &Vec<PlayerAction>, action: PlayerAction) -> (b: bool)
    ensures
        b == actions@.contains(action),
{
    let mut i: usize = 0;
    while i < actions.len()
        invariant
            i <= actions.len(),
            forall|k: int| 0 <= k < i ==> actions@[k] != action,
        decreases actions.len() - i,
    {
        if actions[i] == action {
            return true;
        }
        i = i + 1;
    }
    false
}

} // verus!
