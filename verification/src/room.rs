//! One room: a table together with who is connected, the session tokens,
//! the turn counter and the seats that are held for disconnected players.

use vstd::prelude::*;
use std::collections::HashMap;
use std::time::Instant;
use crate::game::{is_walk, keep, GamePhase, GameState, Player, SeatFilter, Table};
use crate::game::{lemma_keep_ignores_players, lemma_keep_members};
use crate::protocol::{player_views, card_infos, cards_to_infos, card_to_info, spec_card_to_info, BlindConfig, CardInfo, PlayerInfo, PlayerInfoView, ServerMessage, ServerMessageView};
use crate::random::{clock_now, random_token, seconds_since, thread_rng};

verus! {

broadcast use vstd::std_specs::hash::group_hash_axioms;

/// Seconds for which the seat of a disconnected player is held.
pub const SESSION_GRACE_SECS: u64 = 300;

/// A message on its way out, with the players whose queues get it.
#[derive(Debug)]
pub struct Outbound {
    pub recipients: Vec<u32>,
    pub message: ServerMessage,
}

pub struct OutboundView {
    pub recipients: Seq<u32>,
    pub message: ServerMessageView,
}

impl View for Outbound {
    type V = OutboundView;

    open spec fn view(&self) -> OutboundView {
        OutboundView { recipients: self.recipients@, message: self.message@ }
    }
}

pub open spec fn outbound_views(out: Seq<Outbound>) -> Seq<OutboundView> {
    out.map_values(|o: Outbound| o@)
}

/// `ids` without `id`.
pub open spec fn without(ids: Seq<u32>, id: u32) -> Seq<u32> {
    keep(Map::<u32, Player>::empty(), ids, SeatFilter::Except(id))
}

/// A poker room.
pub struct Room {
    /// The table.
    pub game_state: GameState,
    /// The players with an outbound queue, in the order in which they
    /// connected.
    pub connected: Vec<u32>,
    pub blind_config: BlindConfig,
    /// Counts the turns; a turn timer acts only while its turn is current.
    pub turn_counter: u64,
    /// Session token to player.
    pub sessions: HashMap<u128, u32>,
    /// Player to session token.
    pub player_sessions: HashMap<u32, u128>,
    /// When each disconnected player whose seat is held went away.
    pub disconnected_at: HashMap<u32, Instant>,
}

/// A room as contracts see it.
pub struct RoomView {
    pub game: Table,
    pub connected: Seq<u32>,
    pub blind_config: BlindConfig,
    pub turn_counter: u64,
    pub sessions: Map<u128, u32>,
    pub player_sessions: Map<u32, u128>,
    pub disconnected_at: Map<u32, Instant>,
}

impl View for Room {
    type V = RoomView;

    open spec fn view(&self) -> RoomView {
        RoomView {
            game: self.game_state@,
            connected: self.connected@,
            blind_config: self.blind_config,
            turn_counter: self.turn_counter,
            sessions: self.sessions@,
            player_sessions: self.player_sessions@,
            disconnected_at: self.disconnected_at@,
        }
    }
}

/// Why a player could not join.
#[derive(Debug, Clone, Copy, PartialEq, Eq, Structural)]
pub enum JoinError {
    /// The game runs and late entry is off.
    GameInProgress,
}

/// Why a player could not come back.
#[derive(Debug, Clone, Copy, PartialEq, Eq, Structural)]
pub enum RejoinError {
    /// No session has this token.
    InvalidToken,
    /// The session's player has left the table for good.
    SessionExpired,
}

/// What joining a room gives.
#[derive(Debug)]
pub struct Joined {
    pub player_id: u32,
    pub session_token: u128,
    /// The number of players at the table, the new one included.
    pub player_count: usize,
    /// The news of the join for the players who were there before.
    pub notice: Outbound,
}

/// What follows from a disconnect.
#[derive(Debug)]
pub struct Disconnected {
    /// What the players who stay are told.
    pub outbound: Vec<Outbound>,
    /// The seat is held: the player is to be reaped after the grace period
    /// unless they come back.
    pub held: bool,
    /// Nobody is connected any more and the room can go.
    pub room_empty: bool,
}

impl RoomView {
    /// A room that nobody has joined yet.
    pub open spec fn fresh(blind_config: BlindConfig, starting_bbs: u32) -> RoomView {
        RoomView {
            game: Table { blind_config, starting_bbs, ..Table::fresh() },
            connected: Seq::<u32>::empty(),
            blind_config,
            turn_counter: 0,
            sessions: Map::<u128, u32>::empty(),
            player_sessions: Map::<u32, u128>::empty(),
            disconnected_at: Map::<u32, Instant>::empty(),
        }
    }

    /// A message for one player; for nobody where the player is not
    /// connected.
    pub open spec fn to_player(self, id: u32, message: ServerMessageView) -> OutboundView {
        OutboundView {
            recipients: if self.connected.contains(id) {
                seq![id]
            } else {
                Seq::<u32>::empty()
            },
            message,
        }
    }

    /// A message for everybody who is connected.
    pub open spec fn to_all(self, message: ServerMessageView) -> OutboundView {
        OutboundView { recipients: self.connected, message }
    }

    /// A message for everybody who is connected but `id`.
    pub open spec fn to_others(self, id: u32, message: ServerMessageView) -> OutboundView {
        OutboundView { recipients: without(self.connected, id), message }
    }

    /// The room with a session of `player_id` under `token`.
    pub open spec fn with_session(self, player_id: u32, token: u128) -> RoomView {
        RoomView {
            sessions: self.sessions.insert(token, player_id),
            player_sessions: self.player_sessions.insert(player_id, token),
            ..self
        }
    }

    /// The room without the session of `player_id`.
    pub open spec fn without_session(self, player_id: u32) -> RoomView {
        if self.player_sessions.contains_key(player_id) {
            RoomView {
                sessions: self.sessions.remove(self.player_sessions[player_id]),
                player_sessions: self.player_sessions.remove(player_id),
                ..self
            }
        } else {
            self
        }
    }

    /// The room with `player_id` connected.
    pub open spec fn with_connection(self, player_id: u32) -> RoomView {
        if self.connected.contains(player_id) {
            self
        } else {
            RoomView { connected: self.connected.push(player_id), ..self }
        }
    }

    /// The machine's numbers have room for one more player: an ID is left,
    /// and the default stack can be counted.
    pub open spec fn can_join(self) -> bool {
        self.game.next_player_id < u32::MAX && (!self.game.game_started ==> self.game.starting_bbs
            * self.game.big_blind <= u32::MAX)
    }

    /// Why nobody can join now, or nothing where one can.
    pub open spec fn join_error(self) -> Option<JoinError> {
        if self.game.game_started && !self.game.allow_late_entry {
            Some(JoinError::GameInProgress)
        } else {
            None
        }
    }

    /// The stack of a player who joins now: the default before the game
    /// starts, and the stack fixed at its start afterwards.
    pub open spec fn joining_chips(self) -> u32 {
        if self.game.game_started {
            self.game.starting_chips
        } else {
            (self.game.starting_bbs * self.game.big_blind) as u32
        }
    }

    /// The room after a player joined under `name` with the session
    /// `token`. Who joins a running game sits out.
    pub open spec fn after_join(self, name: String, token: u128) -> RoomView {
        let p = self.game.new_player(name, self.joining_chips());
        let seated = self.game.with_player(p);
        let game = if self.game.game_started {
            seated.with_sitting(p.id, true)
        } else {
            seated
        };
        RoomView { game, ..self }.with_session(p.id, token).with_connection(p.id)
    }

    /// Why the session `token` cannot be taken up again, or nothing where
    /// it can.
    pub open spec fn rejoin_error(self, token: u128) -> Option<RejoinError> {
        if !self.sessions.contains_key(token) {
            Some(RejoinError::InvalidToken)
        } else if !self.game.players.contains_key(self.sessions[token]) {
            Some(RejoinError::SessionExpired)
        } else {
            None
        }
    }

    /// The room after an attempt to take up the session `token` again. A
    /// session whose player has gone is dropped; a player who comes back is
    /// connected and no longer waited for.
    pub open spec fn after_rejoin(self, token: u128) -> RoomView {
        match self.rejoin_error(token) {
            Some(RejoinError::InvalidToken) => self,
            Some(RejoinError::SessionExpired) => RoomView {
                sessions: self.sessions.remove(token),
                player_sessions: self.player_sessions.remove(self.sessions[token]),
                ..self
            },
            None => RoomView {
                disconnected_at: self.disconnected_at.remove(self.sessions[token]),
                ..self
            }.with_connection(self.sessions[token]),
        }
    }

    /// The seat of `player_id` is held when they disconnect: the game runs
    /// and they are seated.
    pub open spec fn holds_seat(self, player_id: u32) -> bool {
        self.game.game_started && self.game.players.contains_key(player_id)
    }

    /// The room after `player_id` left the table for good.
    pub open spec fn after_leaving(self, player_id: u32) -> RoomView {
        RoomView { game: self.game.without_player(player_id), ..self.without_session(player_id) }
    }

    /// The room after the connection of `player_id` was lost at `now`.
    /// While the game runs the seat is held and the player sits out; else
    /// the player leaves for good.
    pub open spec fn after_disconnect(self, player_id: u32, now: Instant) -> RoomView {
        let gone = RoomView { connected: without(self.connected, player_id), ..self };
        if self.holds_seat(player_id) {
            RoomView {
                game: self.game.with_sitting(player_id, true),
                disconnected_at: self.disconnected_at.insert(player_id, now),
                ..gone
            }
        } else {
            gone.after_leaving(player_id)
        }
    }

    /// What those who stay are told of the disconnect of `player_id`.
    pub open spec fn disconnect_messages(self, player_id: u32) -> Seq<OutboundView> {
        let recipients = without(self.connected, player_id);
        if self.holds_seat(player_id) {
            if self.game.players[player_id].sitting_out {
                Seq::<OutboundView>::empty()
            } else {
                seq![OutboundView { recipients, message: ServerMessageView::PlayerSatOut { player_id } }]
            }
        } else {
            seq![OutboundView { recipients, message: ServerMessageView::PlayerLeft { player_id } }]
        }
    }

    /// The grace period of `player_id` is over: their seat is held, and
    /// `elapsed` seconds since they went away are the grace period or more.
    pub open spec fn grace_over(self, player_id: u32, elapsed: Option<u64>) -> bool {
        self.disconnected_at.contains_key(player_id) && elapsed is Some && elapsed->Some_0 >= SESSION_GRACE_SECS
    }

    /// The room after the reaper looked at `player_id`: gone for good where
    /// the grace period is over, and else as before.
    pub open spec fn after_reap(self, player_id: u32, elapsed: Option<u64>) -> RoomView {
        if self.grace_over(player_id, elapsed) {
            RoomView { disconnected_at: self.disconnected_at.remove(player_id), ..self }.after_leaving(player_id)
        } else {
            self
        }
    }
}

/// Whether the product of two numbers fits 32 bits.
pub fn product_fits(a: u32, b: u32) -> (fits: bool)
    ensures
        fits == (a * b <= u32::MAX),
{
    proof {
        assert(a * b <= 0xffff_ffff * 0xffff_ffff) by (nonlinear_arith)
            requires
                0 <= a <= 0xffff_ffff,
                0 <= b <= 0xffff_ffff,
        ;
    }
    a as u64 * b as u64 <= u32::MAX as u64
}

fn list_without(ids: &Vec<u32>, id: u32) -> (out: Vec<u32>)
    ensures
        out@ == without(ids@, id),
{
    let mut out: Vec<u32> = Vec::new();
    let mut i: usize = 0;
    while i < ids.len()
        invariant
            i <= ids.len(),
            out@ == without(ids@.take(i as int), id),
        decreases ids.len() - i,
    {
        proof {
            assert(ids@.take(i + 1).drop_last() =~= ids@.take(i as int));
            assert(ids@.take(i + 1).last() == ids@[i as int]);
        }
        if ids[i] != id {
            out.push(ids[i]);
        }
        i = i + 1;
    }
    proof {
        assert(ids@.take(ids.len() as int) =~= ids@);
    }
    out
}

fn list_contains(ids: &Vec<u32>, id: u32) -> (b: bool)
    ensures
        b == ids@.contains(id),
{
    let mut i: usize = 0;
    while i < ids.len()
        invariant
            i <= ids.len(),
            forall|k: int| 0 <= k < i ==> ids@[k] != id,
        decreases ids.len() - i,
    {
        if ids[i] == id {
            return true;
        }
        i = i + 1;
    }
    false
}

fn copy_ids(ids: &Vec<u32>) -> (out: Vec<u32>)
    ensures
        out@ == ids@,
{
    let mut out: Vec<u32> = Vec::new();
    let mut i: usize = 0;
    while i < ids.len()
        invariant
            i <= ids.len(),
            out@ == ids@.take(i as int),
        decreases ids.len() - i,
    {
        out.push(ids[i]);
        proof {
            assert(ids@.take(i + 1) =~= ids@.take(i as int).push(ids@[i as int]));
        }
        i = i + 1;
    }
    proof {
        assert(ids@.take(ids.len() as int) =~= ids@);
    }
    out
}

impl Room {
    /// An empty room with the given blind configuration and starting
    /// stacks.
    pub fn new(blind_config: BlindConfig, starting_bbs: u32) -> (room: Room)
        ensures
            room@ == RoomView::fresh(blind_config, starting_bbs),
            room@.wf(),
            room@.game.wf(),
            room@.game.bets_fit(),
            room@.game.chips_in_play() == 0,
    {
        let mut game_state = GameState::new();
        game_state.blind_config = blind_config;
        game_state.starting_bbs = starting_bbs;
        Room {
            game_state,
            connected: Vec::new(),
            blind_config,
            turn_counter: 0,
            sessions: HashMap::new(),
            player_sessions: HashMap::new(),
            disconnected_at: HashMap::new(),
        }
    }

    /// Addresses a message to one player.
    pub fn send_to_player(&self, player_id: u32, message: ServerMessage) -> (out: Outbound)
        ensures
            out@ == self@.to_player(player_id, message@),
    {
        let mut recipients: Vec<u32> = Vec::new();
        if list_contains(&self.connected, player_id) {
            recipients.push(player_id);
        }
        assert(recipients@ =~= self@.to_player(player_id, message@).recipients);
        Outbound { recipients, message }
    }

    /// Addresses a message to everybody who is connected.
    pub fn broadcast(&self, message: ServerMessage) -> (out: Outbound)
        ensures
            out@ == self@.to_all(message@),
    {
        Outbound { recipients: copy_ids(&self.connected), message }
    }

    /// Addresses a message to everybody who is connected but one player.
    pub fn broadcast_except(&self, message: ServerMessage, exclude_id: u32) -> (out: Outbound)
        ensures
            out@ == self@.to_others(exclude_id, message@),
    {
        Outbound { recipients: list_without(&self.connected, exclude_id), message }
    }

    /// Addresses each of `messages` to everybody who is connected.
    pub fn broadcast_all(&self, messages: Vec<ServerMessage>) -> (out: Vec<Outbound>)
        ensures
            out@.len() == messages@.len(),
            forall|i: int| 0 <= i < out@.len() ==> (#[trigger] out@[i])@ == self@.to_all(messages@[i]@),
    {
        let mut messages = messages;
        let ghost all = messages@;
        let mut reversed: Vec<Outbound> = Vec::new();
        while messages.len() > 0
            invariant
                messages@.len() <= all.len(),
                messages@ == all.take(messages@.len() as int),
                reversed@.len() == all.len() - messages@.len(),
                forall|i: int|
                    0 <= i < reversed@.len() ==> (#[trigger] reversed@[i])@ == self@.to_all(all[all.len() - 1 - i]@),
            decreases messages.len(),
        {
            let ghost before = messages@;
            match messages.pop() {
                Some(m) => {
                    proof {
                        assert(m == all[before.len() - 1]);
                        assert(messages@ =~= all.take(messages@.len() as int));
                    }
                    reversed.push(self.broadcast(m));
                },
                None => {},
            }
        }
        let mut out: Vec<Outbound> = Vec::new();
        let ghost turned = reversed@;
        while reversed.len() > 0
            invariant
                reversed@.len() <= turned.len(),
                turned.len() == all.len(),
                reversed@ == turned.take(reversed@.len() as int),
                out@.len() == turned.len() - reversed@.len(),
                forall|i: int| 0 <= i < turned.len() ==> (#[trigger] turned[i])@ == self@.to_all(all[all.len() - 1 - i]@),
                forall|i: int| 0 <= i < out@.len() ==> (#[trigger] out@[i])@ == self@.to_all(all[i]@),
            decreases reversed.len(),
        {
            let ghost before = reversed@;
            match reversed.pop() {
                Some(o) => {
                    proof {
                        assert(o == turned[before.len() - 1]);
                        assert(reversed@ =~= turned.take(reversed@.len() as int));
                    }
                    out.push(o);
                },
                None => {},
            }
        }
        out
    }

    /// Records the session token of a player.
    pub fn register_session(&mut self, player_id: u32, token: u128)
        ensures
            final(self)@ == old(self)@.with_session(player_id, token),
    {
        self.sessions.insert(token, player_id);
        self.player_sessions.insert(player_id, token);
    }

    fn drop_session(&mut self, player_id: u32)
        ensures
            final(self)@ == old(self)@.without_session(player_id),
    {
        match self.player_sessions.remove(&player_id) {
            Some(token) => {
                self.sessions.remove(&token);
            },
            None => {
                proof {
                    assert(self@.player_sessions =~= old(self)@.player_sessions);
                }
            },
        }
    }

    fn connect(&mut self, player_id: u32)
        ensures
            final(self)@ == old(self)@.with_connection(player_id),
    {
        if !list_contains(&self.connected, player_id) {
            self.connected.push(player_id);
        }
    }

    /// Whether the machine's numbers have room for one more player.
    pub fn can_join(&self) -> (b: bool)
        ensures
            b == self@.can_join(),
    {
        self.game_state.next_player_id < u32::MAX && (self.game_state.game_started || product_fits(
            self.game_state.starting_bbs,
            self.game_state.big_blind,
        ))
    }

    /// Whether nobody is connected.
    pub fn is_empty(&self) -> (b: bool)
        ensures
            b == (self@.connected.len() == 0),
    {
        self.connected.len() == 0
    }
}

/// The players of `walk` as the protocol shows them.
pub open spec fn player_infos(players: Map<u32, Player>, walk: Seq<u32>) -> Seq<PlayerInfoView> {
    Seq::new(
        walk.len(),
        |i: int| PlayerInfoView { id: players[walk[i]].id, name: players[walk[i]].name@, chips: players[walk[i]].chips },
    )
}

/// The name of a phase in a snapshot.
pub open spec fn stage_name(phase: GamePhase) -> Seq<char> {
    match phase {
        GamePhase::Lobby => "Waiting"@,
        GamePhase::PreFlop => "Preflop"@,
        GamePhase::Flop => "Flop"@,
        GamePhase::Turn => "Turn"@,
        GamePhase::River => "River"@,
        GamePhase::Showdown => "Showdown"@,
    }
}

impl Table {
    /// The player at the seat `offset` seats after the dealer's, or 0 with
    /// fewer than two seats.
    pub open spec fn position_id(self, offset: int) -> u32 {
        if self.order.len() >= 2 {
            self.order[(self.dealer_index + offset) % (self.order.len() as int)]
        } else {
            0
        }
    }

    /// The hole cards of `player_id` in wire form.
    pub open spec fn hole_infos(self, player_id: u32) -> Option<Seq<CardInfo>> {
        if self.players.contains_key(player_id) && self.players[player_id].hole_cards is Some {
            let hole = self.players[player_id].hole_cards->Some_0;
            Some(seq![spec_card_to_info(hole.0), spec_card_to_info(hole.1)])
        } else {
            None
        }
    }
}

impl RoomView {
    /// The full state of the room for `player_id`, who comes back with the
    /// session `session_token`; lists of players are in the order `walk`.
    pub open spec fn rejoin_snapshot(
        self,
        walk: Seq<u32>,
        room_id: Seq<char>,
        player_id: u32,
        session_token: Seq<char>,
    ) -> ServerMessageView {
        let g = self.game;
        ServerMessageView::Rejoined {
            room_id,
            player_id,
            session_token,
            chips: if g.players.contains_key(player_id) {
                g.players[player_id].chips
            } else {
                0
            },
            game_started: g.game_started,
            hand_number: g.hand_number,
            pot: g.pot,
            stage: stage_name(g.phase),
            community_cards: card_infos(g.community_cards),
            hole_cards: g.hole_infos(player_id),
            players: player_infos(g.players, walk),
            sitting_out: keep(g.players, walk, SeatFilter::SittingOut),
            folded: keep(g.players, walk, SeatFilter::Folded),
            blind_config: self.blind_config,
            allow_late_entry: g.allow_late_entry,
            is_host: g.host_id == player_id,
            dealer_id: g.position_id(0),
            small_blind_id: g.position_id(1),
            big_blind_id: g.position_id(2),
            small_blind: g.small_blind,
            big_blind: g.big_blind,
        }
    }
}

/// Once the last connected player of a room whose game has not started
/// disconnects, nobody is connected.
pub proof fn lemma_last_disconnect_empties(room: RoomView, player_id: u32, now: Instant)
    requires
        forall|i: int| 0 <= i < room.connected.len() ==> room.connected[i] == player_id,
    ensures
        room.after_disconnect(player_id, now).connected.len() == 0,
{
    lemma_without_only(room.connected, player_id);
}

proof fn lemma_without_only(ids: Seq<u32>, id: u32)
    requires
        forall|i: int| 0 <= i < ids.len() ==> ids[i] == id,
    ensures
        without(ids, id).len() == 0,
    decreases ids.len(),
{
    if ids.len() > 0 {
        assert forall|i: int| 0 <= i < ids.drop_last().len() implies ids.drop_last()[i] == id by {
            assert(ids.drop_last()[i] == ids[i]);
        }
        lemma_without_only(ids.drop_last(), id);
    }
}

/// A player whose seat is held can take up their session again: they are
/// connected afterwards, no longer waited for, and still at the table.
pub proof fn lemma_rejoin_within_grace(room: RoomView, token: u128)
    requires
        room.sessions.contains_key(token),
        room.game.players.contains_key(room.sessions[token]),
    ensures
        room.rejoin_error(token) is None,
        room.after_rejoin(token).connected.contains(room.sessions[token]),
        !room.after_rejoin(token).disconnected_at.contains_key(room.sessions[token]),
        room.after_rejoin(token).game == room.game,
        room.after_rejoin(token).sessions == room.sessions,
{
    let id = room.sessions[token];
    if !room.connected.contains(id) {
        assert(room.connected.push(id)[room.connected.len() as int] == id);
    }
}

/// After the grace period the reaper takes the player and their session
/// away, and the token is refused from then on.
pub proof fn lemma_rejoin_after_grace(room: RoomView, player_id: u32, token: u128, elapsed: Option<u64>)
    requires
        room.grace_over(player_id, elapsed),
        room.player_sessions.contains_key(player_id),
        room.player_sessions[player_id] == token,
    ensures
        !room.after_reap(player_id, elapsed).game.players.contains_key(player_id),
        room.after_reap(player_id, elapsed).rejoin_error(token) == Some(RejoinError::InvalidToken),
        !room.after_reap(player_id, elapsed).disconnected_at.contains_key(player_id),
{
}

/// A player who loses the connection while the game runs keeps the seat,
/// sitting out, and is waited for. While the grace period runs the reaper
/// changes nothing. Once it is over, with no rejoin in between, the reaper
/// takes the player from the table, from the seats and from the sessions,
/// and the token is refused from then on. A player who takes up the
/// session in time is at the table as before, and the reaper, whenever it
/// comes, finds nobody to wait for and changes nothing.
pub proof fn lemma_grace_period(room: RoomView, player_id: u32, token: u128, now: Instant, elapsed: u64)
    requires
        room.holds_seat(player_id),
        room.sessions.contains_key(token),
        room.sessions[token] == player_id,
        room.player_sessions.contains_key(player_id),
        room.player_sessions[player_id] == token,
    ensures
        ({
            let away = room.after_disconnect(player_id, now);
            let reaped = away.after_reap(player_id, Some(elapsed));
            let back = away.after_rejoin(token);
            &&& away.game.players.contains_key(player_id)
            &&& away.game.players[player_id].sitting_out
            &&& away.disconnected_at.contains_key(player_id)
            &&& away.sessions == room.sessions
            &&& away.grace_over(player_id, Some(elapsed)) <==> elapsed >= SESSION_GRACE_SECS
            &&& elapsed < SESSION_GRACE_SECS ==> reaped == away
            &&& elapsed >= SESSION_GRACE_SECS ==> {
                &&& !reaped.game.players.contains_key(player_id)
                &&& !reaped.game.order.contains(player_id)
                &&& !reaped.sessions.contains_key(token)
                &&& !reaped.player_sessions.contains_key(player_id)
                &&& !reaped.disconnected_at.contains_key(player_id)
                &&& reaped.rejoin_error(token) == Some(RejoinError::InvalidToken)
            }
            &&& away.rejoin_error(token) is None
            &&& back.game == away.game
            &&& back.sessions == room.sessions
            &&& back.player_sessions == room.player_sessions
            &&& back.connected.contains(player_id)
            &&& forall|later: Option<u64>| #![trigger back.after_reap(player_id, later)]
                !back.grace_over(player_id, later) && back.after_reap(player_id, later) == back
        }),
{
    let away = room.after_disconnect(player_id, now);
    lemma_rejoin_within_grace(away, token);
    let gone = RoomView { disconnected_at: away.disconnected_at.remove(player_id), ..away };
    lemma_keep_members(gone.game.players, gone.game.order, SeatFilter::Except(player_id));
    let seats = keep(gone.game.players, gone.game.order, SeatFilter::Except(player_id));
    if seats.contains(player_id) {
        let i = choose|i: int| 0 <= i < seats.len() && seats[i] == player_id;
        assert(SeatFilter::Except(player_id).accepts(gone.game.players, seats[i]));
    }
}

impl Room {
    /// Lets a player join under the session `token`.
    pub fn join_with_token(&mut self, name: String, token: u128) -> (r: Result<Joined, JoinError>)
        requires
            old(self)@.game.next_player_id < u32::MAX,
            !old(self)@.game.game_started ==> old(self)@.game.starting_bbs * old(self)@.game.big_blind <= u32::MAX,
        ensures
            match r {
                Ok(joined) => {
                    &&& old(self)@.join_error() is None
                    &&& final(self)@ == old(self)@.after_join(name, token)
                    &&& joined.player_id == old(self)@.game.next_player_id
                    &&& joined.session_token == token
                    &&& joined.player_count == final(self)@.game.players.len()
                    &&& joined.notice@ == final(self)@.to_others(
                        joined.player_id,
                        ServerMessageView::PlayerJoined { player_id: joined.player_id, name: name@ },
                    )
                },
                Err(e) => old(self)@.join_error() == Some(e) && final(self)@ == old(self)@,
            },
            r is Ok && !old(self)@.game.players.contains_key(old(self)@.game.next_player_id)
                ==> final(self)@.game.chips_in_play() == old(self)@.game.chips_in_play() + old(self)@.joining_chips(),
            old(self)@.game.bets_fit() ==> final(self)@.game.bets_fit(),
            old(self)@.wf() ==> final(self)@.wf(),
    {
        proof {
            if old(self)@.wf() {
                crate::seats::lemma_room_after_join(old(self)@, name, token);
            }
        }
        if self.game_state.game_started && !self.game_state.allow_late_entry {
            return Err(JoinError::GameInProgress);
        }
        let announced = name.clone();
        let player_id: u32 = if self.game_state.game_started {
            let chips: u32 = self.game_state.starting_chips;
            let p = self.game_state.add_player_with_chips(name, Some(chips));
            self.game_state.set_sitting_out(p.id);
            p.id
        } else {
            let p = self.game_state.add_player(name);
            p.id
        };
        let player_count: usize = self.game_state.player_count();
        self.register_session(player_id, token);
        self.connect(player_id);
        let notice = self.broadcast_except(
            ServerMessage::PlayerJoined { player_id, name: announced },
            player_id,
        );
        Ok(Joined { player_id, session_token: token, player_count, notice })
    }

    /// Lets a player join and issues a random session token.
    pub fn join(&mut self, name: String) -> (r: Result<Joined, JoinError>)
        requires
            old(self)@.game.next_player_id < u32::MAX,
            !old(self)@.game.game_started ==> old(self)@.game.starting_bbs * old(self)@.game.big_blind <= u32::MAX,
        ensures
            match r {
                Ok(joined) => {
                    &&& old(self)@.join_error() is None
                    &&& final(self)@ == old(self)@.after_join(name, joined.session_token)
                    &&& joined.player_id == old(self)@.game.next_player_id
                    &&& joined.player_count == final(self)@.game.players.len()
                    &&& joined.notice@ == final(self)@.to_others(
                        joined.player_id,
                        ServerMessageView::PlayerJoined { player_id: joined.player_id, name: name@ },
                    )
                },
                Err(e) => old(self)@.join_error() == Some(e) && final(self)@ == old(self)@,
            },
            r is Ok && !old(self)@.game.players.contains_key(old(self)@.game.next_player_id)
                ==> final(self)@.game.chips_in_play() == old(self)@.game.chips_in_play() + old(self)@.joining_chips(),
            old(self)@.game.bets_fit() ==> final(self)@.game.bets_fit(),
            old(self)@.wf() ==> final(self)@.wf(),
    {
        let mut rng = thread_rng();
        let token: u128 = random_token(&mut rng);
        self.join_with_token(name, token)
    }

    /// Takes up the session `token` again after a disconnect.
    pub fn rejoin(&mut self, token: u128) -> (r: Result<u32, RejoinError>)
        ensures
            final(self)@ == old(self)@.after_rejoin(token),
            match r {
                Ok(player_id) => old(self)@.rejoin_error(token) is None && player_id == old(self)@.sessions[token],
                Err(e) => old(self)@.rejoin_error(token) == Some(e),
            },
            old(self)@.wf() ==> final(self)@.wf(),
    {
        proof {
            if old(self)@.wf() {
                crate::seats::lemma_room_after_rejoin(old(self)@, token);
            }
        }
        let player_id: u32 = match self.sessions.get(&token) {
            Some(id) => *id,
            None => {
                return Err(RejoinError::InvalidToken);
            },
        };
        if !self.game_state.players.contains_key(&player_id) {
            self.sessions.remove(&token);
            self.player_sessions.remove(&player_id);
            return Err(RejoinError::SessionExpired);
        }
        self.disconnected_at.remove(&player_id);
        self.connect(player_id);
        Ok(player_id)
    }

    /// Takes `player_id` from the table for good, with their session.
    fn leave(&mut self, player_id: u32)
        ensures
            final(self)@ == old(self)@.after_leaving(player_id),
    {
        self.drop_session(player_id);
        self.game_state.remove_player(player_id);
    }

    /// Handles the loss of the connection of `player_id` at the moment
    /// `now`.
    pub fn disconnect_at(&mut self, player_id: u32, now: Instant) -> (r: Disconnected)
        ensures
            final(self)@ == old(self)@.after_disconnect(player_id, now),
            crate::room::outbound_views(r.outbound@) == old(self)@.disconnect_messages(player_id),
            r.held == old(self)@.holds_seat(player_id),
            r.room_empty == (!r.held && final(self)@.connected.len() == 0),
            old(self)@.wf() ==> final(self)@.wf(),
    {
        proof {
            if old(self)@.wf() {
                crate::seats::lemma_room_after_disconnect(old(self)@, player_id, now);
            }
        }
        let mut outbound: Vec<Outbound> = Vec::new();
        self.connected = list_without(&self.connected, player_id);
        let sitting: Option<bool> = if self.game_state.game_started {
            match self.game_state.players.get(&player_id) {
                Some(p) => Some(p.sitting_out),
                None => None,
            }
        } else {
            None
        };
        match sitting {
            Some(out) => {
                if !out {
                    self.game_state.set_sitting_out(player_id);
                    outbound.push(self.broadcast(ServerMessage::PlayerSatOut { player_id }));
                } else {
                    proof {
                        assert(self@.game.players =~= old(self)@.game.with_sitting(player_id, true).players);
                    }
                }
                self.disconnected_at.insert(player_id, now);
                proof {
                    assert(outbound_views(outbound@) =~= old(self)@.disconnect_messages(player_id));
                }
                Disconnected { outbound, held: true, room_empty: false }
            },
            None => {
                self.leave(player_id);
                outbound.push(self.broadcast(ServerMessage::PlayerLeft { player_id }));
                let room_empty = self.connected.len() == 0;
                proof {
                    assert(outbound_views(outbound@) =~= old(self)@.disconnect_messages(player_id));
                }
                Disconnected { outbound, held: false, room_empty }
            },
        }
    }

    /// Handles the loss of the connection of `player_id` now.
    pub fn disconnect(&mut self, player_id: u32) -> (r: Disconnected)
        ensures
            exists|now: Instant| final(self)@ == old(self)@.after_disconnect(player_id, now),
            crate::room::outbound_views(r.outbound@) == old(self)@.disconnect_messages(player_id),
            r.held == old(self)@.holds_seat(player_id),
            r.room_empty == (!r.held && final(self)@.connected.len() == 0),
            old(self)@.wf() ==> final(self)@.wf(),
    {
        let now = clock_now();
        self.disconnect_at(player_id, now)
    }

    /// Takes a disconnected player away for good where `elapsed`, the
    /// seconds since they went away, are the grace period or more; says
    /// then what the others are told.
    pub fn reap_after(&mut self, player_id: u32, elapsed: Option<u64>) -> (out: Option<Outbound>)
        ensures
            final(self)@ == old(self)@.after_reap(player_id, elapsed),
            match out {
                Some(o) => old(self)@.grace_over(player_id, elapsed) && o@ == final(self)@.to_all(
                    ServerMessageView::PlayerLeft { player_id },
                ),
                None => !old(self)@.grace_over(player_id, elapsed),
            },
            old(self)@.wf() ==> final(self)@.wf(),
    {
        proof {
            if old(self)@.wf() {
                crate::seats::lemma_room_after_reap(old(self)@, player_id, elapsed);
            }
        }
        let over: bool = self.disconnected_at.contains_key(&player_id) && match elapsed {
            Some(e) => e >= SESSION_GRACE_SECS,
            None => false,
        };
        if !over {
            return None;
        }
        self.disconnected_at.remove(&player_id);
        self.leave(player_id);
        Some(self.broadcast(ServerMessage::PlayerLeft { player_id }))
    }

    /// Looks at a disconnected player when their grace period should be
    /// over, and takes them away for good if it is.
    pub fn reap(&mut self, player_id: u32) -> (out: Option<Outbound>)
        ensures
            exists|elapsed: Option<u64>|
                {
                    &&& elapsed is Some <==> old(self)@.disconnected_at.contains_key(player_id)
                    &&& final(self)@ == old(self)@.after_reap(player_id, elapsed)
                    &&& match out {
                        Some(o) => old(self)@.grace_over(player_id, elapsed) && o@ == final(self)@.to_all(
                            ServerMessageView::PlayerLeft { player_id },
                        ),
                        None => !old(self)@.grace_over(player_id, elapsed),
                    }
                },
            old(self)@.wf() ==> final(self)@.wf(),
    {
        let elapsed: Option<u64> = match self.disconnected_at.get(&player_id) {
            Some(since) => Some(seconds_since(since)),
            None => None,
        };
        self.reap_after(player_id, elapsed)
    }
}

fn stage_text(phase: GamePhase) -> (s: String)
    ensures
        s@ == stage_name(phase),
{
    match phase {
        GamePhase::Lobby => "Waiting".to_string(),
        GamePhase::PreFlop => "Preflop".to_string(),
        GamePhase::Flop => "Flop".to_string(),
        GamePhase::Turn => "Turn".to_string(),
        GamePhase::River => "River".to_string(),
        GamePhase::Showdown => "Showdown".to_string(),
    }
}

impl GameState {
    /// The player at the seat `offset` seats after the dealer's, or 0 with
    /// fewer than two seats.
    pub fn position_player(&self, offset: u8) -> (id: u32)
        requires
            offset <= 2,
        ensures
            id == self@.position_id(offset as int),
    {
        let n: usize = self.player_order.len();
        if n >= 2 {
            let base: usize = self.dealer_index % n;
            let k: usize = (offset as usize) % n;
            let at: usize = if base >= n - k {
                base - (n - k)
            } else {
                base + k
            };
            proof {
                let d = self.dealer_index as int;
                let m = n as int;
                vstd::arithmetic::div_mod::lemma_add_mod_noop(d, offset as int, m);
                if base >= n - k {
                    vstd::arithmetic::div_mod::lemma_mod_add_multiples_vanish(at as int, m);
                    vstd::arithmetic::div_mod::lemma_small_mod(at as nat, n as nat);
                    assert(base + k == m + at);
                } else {
                    vstd::arithmetic::div_mod::lemma_small_mod(at as nat, n as nat);
                }
            }
            self.player_order[at]
        } else {
            0
        }
    }

    /// The hole cards of a player in wire form.
    pub fn hole_cards_of(&self, player_id: u32) -> (cards: Option<[CardInfo; 2]>)
        ensures
            match cards {
                Some(pair) => self@.hole_infos(player_id) == Some(pair@),
                None => self@.hole_infos(player_id) is None,
            },
    {
        match self.players.get(&player_id) {
            Some(p) => match p.hole_cards {
                Some((a, b)) => {
                    let pair = [card_to_info(&a), card_to_info(&b)];
                    assert(pair@ =~= seq![spec_card_to_info(a), spec_card_to_info(b)]);
                    Some(pair)
                },
                None => None,
            },
            None => None,
        }
    }

    /// The players of `walk` as the protocol shows them.
    pub fn player_list(&self, walk: &Vec<u32>) -> (infos: Vec<PlayerInfo>)
        requires
            is_walk(walk@, self@.players),
        ensures
            player_views(infos@) == player_infos(self@.players, walk@),
    {
        let mut infos: Vec<PlayerInfo> = Vec::new();
        let mut i: usize = 0;
        while i < walk.len()
            invariant
                i <= walk.len(),
                is_walk(walk@, self@.players),
                infos@.len() == i,
                forall|k: int|
                    0 <= k < i ==> (#[trigger] infos@[k])@ == (PlayerInfoView {
                        id: self@.players[walk@[k]].id,
                        name: self@.players[walk@[k]].name@,
                        chips: self@.players[walk@[k]].chips,
                    }),
            decreases walk.len() - i,
        {
            let id: u32 = walk[i];
            proof {
                assert(walk@.contains(id));
                assert(walk@.to_set().contains(id));
            }
            match self.players.get(&id) {
                Some(p) => {
                    infos.push(PlayerInfo { id: p.id, name: p.name.clone(), chips: p.chips });
                },
                None => {
                    proof {
                        assert(false);
                    }
                },
            }
            i = i + 1;
        }
        proof {
            assert(player_views(infos@) =~= player_infos(self@.players, walk@));
        }
        infos
    }
}

impl Room {
    /// The full state of the room for a player who comes back, with the
    /// lists of players in the order `walk`.
    pub fn build_rejoin_snapshot_in(&self, walk: &Vec<u32>, room_id: &str, player_id: u32, session_token: &str) -> (msg:
        ServerMessage)
        requires
            is_walk(walk@, self@.game.players),
        ensures
            msg@ == self@.rejoin_snapshot(walk@, room_id@, player_id, session_token@),
    {
        let gs = &self.game_state;
        let chips: u32 = match gs.players.get(&player_id) {
            Some(p) => p.chips,
            None => 0,
        };
        let hole_cards = gs.hole_cards_of(player_id);
        ServerMessage::Rejoined {
            room_id: room_id.to_string(),
            player_id,
            session_token: session_token.to_string(),
            chips,
            game_started: gs.game_started,
            hand_number: gs.hand_number,
            pot: gs.pot,
            stage: stage_text(gs.phase),
            community_cards: cards_to_infos(&gs.community_cards),
            hole_cards,
            players: gs.player_list(walk),
            sitting_out: gs.keep_ids(walk, SeatFilter::SittingOut),
            folded: gs.keep_ids(walk, SeatFilter::Folded),
            blind_config: self.blind_config,
            allow_late_entry: gs.allow_late_entry,
            is_host: gs.host_id == player_id,
            dealer_id: gs.position_player(0),
            small_blind_id: gs.position_player(1),
            big_blind_id: gs.position_player(2),
            small_blind: gs.small_blind,
            big_blind: gs.big_blind,
        }
    }

    /// The full state of the room for a player who comes back. Lists of
    /// players are in the order in which the player table is walked.
    pub fn build_rejoin_snapshot(&self, room_id: &str, player_id: u32, session_token: &str) -> (msg: ServerMessage)
        ensures
            exists|walk: Seq<u32>|
                is_walk(walk, self@.game.players) && msg@ == self@.rejoin_snapshot(
                    walk,
                    room_id@,
                    player_id,
                    session_token@,
                ),
    {
        let walk = self.game_state.player_ids();
        self.build_rejoin_snapshot_in(&walk, room_id, player_id, session_token)
    }
}

} // verus!
