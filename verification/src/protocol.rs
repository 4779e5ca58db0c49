//! The wire protocol: the messages between client and server, the wire form
//! of a card, the blind configuration, and the rule for room IDs.

use vstd::prelude::*;
use vstd::string::StringExecFns;
use vstd::string::StrSliceExecFns;
use crate::cards::{Card, CardNumber, CardSuit};

verus! {

/// A card on the wire: rank 2 to 14 with the Ace at 14, suit 0 to 3 for
/// Diamonds, Spades, Clubs, Hearts.
#[derive(Debug, Clone, Copy, PartialEq, Eq, Structural)]
pub struct CardInfo {
    pub rank: u8,
    pub suit: u8,
}

/// The wire form of a card.
pub open spec fn spec_card_to_info(card: Card) -> CardInfo {
    CardInfo { rank: card.0.spec_value() as u8, suit: card.1.spec_code() as u8 }
}

/// The wire forms of a run of cards.
pub open spec fn card_infos(cards: Seq<Card>) -> Seq<CardInfo> {
    cards.map_values(|c: Card| spec_card_to_info(c))
}

/// Converts a card to its wire form.
pub fn card_to_info(card: &Card) -> (info: CardInfo)
    ensures
        info == spec_card_to_info(*card),
        info.spec_to_card() == *card,
{
    CardInfo { rank: card.0.value(), suit: card.1.code() }
}

impl CardInfo {
    /// The card that the wire form stands for; a rank outside 2 to 14 reads
    /// as Two, a suit outside 0 to 3 as Diamonds.
    pub open spec fn spec_to_card(self) -> Card {
        Card(CardNumber::spec_from_value(self.rank as int), CardSuit::spec_from_code(self.suit as int))
    }

    pub open spec fn spec_rank_str(self) -> Seq<char> {
        if self.rank == 2 {
            "2"@
        } else if self.rank == 3 {
            "3"@
        } else if self.rank == 4 {
            "4"@
        } else if self.rank == 5 {
            "5"@
        } else if self.rank == 6 {
            "6"@
        } else if self.rank == 7 {
            "7"@
        } else if self.rank == 8 {
            "8"@
        } else if self.rank == 9 {
            "9"@
        } else if self.rank == 10 {
            "10"@
        } else if self.rank == 11 {
            "J"@
        } else if self.rank == 12 {
            "Q"@
        } else if self.rank == 13 {
            "K"@
        } else if self.rank == 14 {
            "A"@
        } else {
            "?"@
        }
    }

    pub open spec fn spec_suit_str(self) -> Seq<char> {
        if self.suit == 0 {
            "♦"@
        } else if self.suit == 1 {
            "♠"@
        } else if self.suit == 2 {
            "♣"@
        } else if self.suit == 3 {
            "♥"@
        } else {
            "?"@
        }
    }

    /// Converts the wire form into a card.
    pub fn to_card(self) -> (card: Card)
        ensures
            card == self.spec_to_card(),
    {
        Card(CardNumber::from_value(self.rank), CardSuit::from_code(self.suit))
    }

    /// The rank as text, "?" for a rank outside 2 to 14.
    pub fn rank_str(&self) -> (s: &'static str)
        ensures
            s@ == self.spec_rank_str(),
    {
        if self.rank == 2 {
            "2"
        } else if self.rank == 3 {
            "3"
        } else if self.rank == 4 {
            "4"
        } else if self.rank == 5 {
            "5"
        } else if self.rank == 6 {
            "6"
        } else if self.rank == 7 {
            "7"
        } else if self.rank == 8 {
            "8"
        } else if self.rank == 9 {
            "9"
        } else if self.rank == 10 {
            "10"
        } else if self.rank == 11 {
            "J"
        } else if self.rank == 12 {
            "Q"
        } else if self.rank == 13 {
            "K"
        } else if self.rank == 14 {
            "A"
        } else {
            "?"
        }
    }

    /// The suit as a symbol, "?" for a suit outside 0 to 3.
    pub fn suit_str(&self) -> (s: &'static str)
        ensures
            s@ == self.spec_suit_str(),
    {
        if self.suit == 0 {
            "♦"
        } else if self.suit == 1 {
            "♠"
        } else if self.suit == 2 {
            "♣"
        } else if self.suit == 3 {
            "♥"
        } else {
            "?"
        }
    }

    /// The card as text: rank, then suit.
    pub fn label(&self) -> (s: String)
        ensures
            s@ == self.spec_rank_str() + self.spec_suit_str(),
    {
        let mut s = String::from_str(self.rank_str());
        s.append(self.suit_str());
        s
    }
}

/// The wire forms of a run of cards.
pub fn cards_to_infos(cards: &Vec<Card>) -> (infos: Vec<CardInfo>)
    ensures
        infos@ == card_infos(cards@),
{
    let mut infos: Vec<CardInfo> = Vec::new();
    let mut i: usize = 0;
    while i < cards.len()
        invariant
            i <= cards.len(),
            infos@.len() == i,
            forall|k: int| 0 <= k < i ==> infos@[k] == spec_card_to_info(cards@[k]),
        decreases cards.len() - i,
    {
        infos.push(card_to_info(&cards[i]));
        i = i + 1;
    }
    assert(infos@ =~= card_infos(cards@));
    infos
}

/// A player as the protocol shows it.
#[derive(Debug, Clone, PartialEq, Eq)]
pub struct PlayerInfo {
    pub id: u32,
    pub name: String,
    pub chips: u32,
}

pub struct PlayerInfoView {
    pub id: u32,
    pub name: Seq<char>,
    pub chips: u32,
}

impl View for PlayerInfo {
    type V = PlayerInfoView;

    open spec fn view(&self) -> PlayerInfoView {
        PlayerInfoView { id: self.id, name: self.name@, chips: self.chips }
    }
}

pub open spec fn player_views(players: Seq<PlayerInfo>) -> Seq<PlayerInfoView> {
    players.map_values(|p: PlayerInfo| p@)
}

/// An action a player can take in a betting round.
#[derive(Debug, Clone, Copy, PartialEq, Eq, Hash, Structural)]
pub enum PlayerAction {
    Fold,
    Check,
    Call,
    Raise,
    AllIn,
}

impl PlayerAction {
    pub open spec fn spec_label(self) -> Seq<char> {
        match self {
            PlayerAction::Fold => "Fold"@,
            PlayerAction::Check => "Check"@,
            PlayerAction::Call => "Call"@,
            PlayerAction::Raise => "Raise"@,
            PlayerAction::AllIn => "All-In"@,
        }
    }

    /// The action in words.
    pub fn label(self) -> (s: &'static str)
        ensures
            s@ == self.spec_label(),
    {
        match self {
            PlayerAction::Fold => "Fold",
            PlayerAction::Check => "Check",
            PlayerAction::Call => "Call",
            PlayerAction::Raise => "Raise",
            PlayerAction::AllIn => "All-In",
        }
    }
}

/// When and by how much the blinds rise. With either field at 0 they stay.
#[derive(Debug, Clone, Copy, PartialEq, Eq, Structural)]
pub struct BlindConfig {
    /// Seconds between two increases.
    pub interval_secs: u64,
    /// Percent by which the blinds rise each time.
    pub increase_percent: u32,
}

impl BlindConfig {
    pub open spec fn spec_is_enabled(&self) -> bool {
        self.interval_secs > 0 && self.increase_percent > 0
    }

    /// Whether the blinds rise at all.
    pub fn is_enabled(&self) -> (b: bool)
        ensures
            b == self.spec_is_enabled(),
    {
        self.interval_secs > 0 && self.increase_percent > 0
    }
}

impl Default for BlindConfig {
    fn default() -> (c: BlindConfig)
        ensures
            c == (BlindConfig { interval_secs: 0, increase_percent: 0 }),
    {
        BlindConfig { interval_secs: 0, increase_percent: 0 }
    }
}

/// The number of big blinds a player starts with where a room names none.
pub fn default_starting_bbs() -> (n: u32)
    ensures
        n == 100,
{
    100
}

/// How a hand fared over a number of boards that were dealt out at random:
/// `shares[k - 1]` counts the boards on which it was one of exactly `k` best
/// hands. Its equity is the sum of `shares[k - 1] / k`, divided by `trials`.
#[derive(Debug, PartialEq, Eq)]
pub struct Equity {
    pub trials: u64,
    pub shares: Vec<u64>,
}

impl Clone for Equity {
    fn clone(&self) -> (e: Equity)
        ensures
            e@ == self@,
    {
        let mut shares: Vec<u64> = Vec::new();
        let mut i: usize = 0;
        while i < self.shares.len()
            invariant
                i <= self.shares.len(),
                shares@ == self.shares@.take(i as int),
            decreases self.shares.len() - i,
        {
            shares.push(self.shares[i]);
            proof {
                assert(self.shares@.take(i + 1) =~= self.shares@.take(i as int).push(self.shares@[i as int]));
            }
            i = i + 1;
        }
        proof {
            assert(self.shares@.take(self.shares.len() as int) =~= self.shares@);
        }
        Equity { trials: self.trials, shares }
    }
}

pub struct EquityView {
    pub trials: u64,
    pub shares: Seq<u64>,
}

impl View for Equity {
    type V = EquityView;

    open spec fn view(&self) -> EquityView {
        EquityView { trials: self.trials, shares: self.shares@ }
    }
}

pub open spec fn shown_hand_views(hands: Seq<(u32, [CardInfo; 2], String)>) -> Seq<(u32, Seq<CardInfo>, Seq<char>)> {
    hands.map_values(|h: (u32, [CardInfo; 2], String)| (h.0, h.1@, h.2@))
}

pub open spec fn equity_hand_views(hands: Seq<(u32, [CardInfo; 2], Equity)>) -> Seq<(u32, Seq<CardInfo>, EquityView)> {
    hands.map_values(|h: (u32, [CardInfo; 2], Equity)| (h.0, h.1@, h.2@))
}

pub open spec fn winner_views(winners: Seq<(u32, u32, String)>) -> Seq<(u32, u32, Seq<char>)> {
    winners.map_values(|w: (u32, u32, String)| (w.0, w.1, w.2@))
}

/// Messages sent from client to server.
#[derive(Debug, Clone)]
pub enum ClientMessage {
    /// Join the game under a name.
    Join { name: String },
    /// Create a room.
    CreateRoom { room_id: String, blind_config: BlindConfig, starting_bbs: u32 },
    /// Join an existing room under a name.
    JoinRoom { room_id: String, name: String },
    /// Ask for the list of players.
    GetPlayers,
    /// Send a chat message.
    Chat { message: String },
    /// Ask to start the game.
    StartGame,
    Fold,
    Check,
    Call,
    /// Raise by `amount` above the current bet.
    Raise { amount: u32 },
    AllIn,
    /// Ask to sit out.
    SitOut,
    /// Ask to sit back in.
    SitIn,
    /// Switch late entry on or off; for the host only.
    ToggleLateEntry,
    /// Come back after a disconnect with the token issued at joining.
    Rejoin { room_id: String, session_token: String },
    Ping,
}

/// Messages sent from server to client.
#[derive(Debug, Clone)]
#[allow(inconsistent_fields)]
pub enum ServerMessage {
    /// Welcome message on connection.
    Welcome {
        message: String,
    },
    /// Confirmation of joining, with the token for a later reconnection.
    JoinedGame {
        player_id: u32,
        chips: u32,
        player_count: usize,
        session_token: String,
        is_host: bool,
        allow_late_entry: bool,
    },
    /// A new player joined.
    PlayerJoined {
        player_id: u32,
        name: String,
    },
    /// A player left.
    PlayerLeft {
        player_id: u32,
    },
    /// List of all players.
    PlayerList {
        players: Vec<PlayerInfo>,
    },
    /// Chat message from a player.
    ChatMessage {
        player_id: u32,
        message: String,
    },
    /// The game has started.
    GameStarted,
    /// A new hand is starting.
    NewHand {
        hand_number: u32,
        dealer_id: u32,
        small_blind_id: u32,
        big_blind_id: u32,
        small_blind: u32,
        big_blind: u32,
    },
    /// A player's hole cards, sent to that player only.
    HoleCards {
        cards: [CardInfo; 2],
    },
    /// The community cards after a street was dealt.
    CommunityCards {
        stage: String,
        cards: Vec<CardInfo>,
    },
    /// It is the receiver's turn to act.
    YourTurn {
        current_bet: u32,
        your_bet: u32,
        pot: u32,
        min_raise: u32,
        valid_actions: Vec<PlayerAction>,
    },
    /// A player performed an action.
    PlayerActed {
        player_id: u32,
        action: PlayerAction,
        amount: Option<u32>,
    },
    /// The pot after a change.
    PotUpdate {
        pot: u32,
    },
    /// A player's chips after a change.
    ChipUpdate {
        player_id: u32,
        chips: u32,
    },
    /// The hands of the players who are left, each with the name of its category.
    Showdown {
        hands: Vec<(u32, [CardInfo; 2], String)>,
    },
    /// The hands of an all-in, each with its equity, before the board is run out.
    AllInShowdown {
        hands: Vec<(u32, [CardInfo; 2], Equity)>,
        community_cards: Vec<CardInfo>,
    },
    /// The winners of the hand: player, amount won, description of the hand.
    RoundWinner {
        winners: Vec<(u32, u32, String)>,
    },
    /// A player is out of chips.
    PlayerEliminated {
        player_id: u32,
    },
    /// Only one player has chips left.
    GameOver {
        winner_id: u32,
        winner_name: String,
    },
    /// The blinds were raised at the start of a hand.
    BlindsIncreased {
        small_blind: u32,
        big_blind: u32,
    },
    /// A player's turn timer has started.
    TurnTimerStarted {
        player_id: u32,
        timeout_secs: u32,
    },
    /// A player is now sitting out.
    PlayerSatOut {
        player_id: u32,
    },
    /// A player is back in.
    PlayerSatIn {
        player_id: u32,
    },
    /// The late-entry setting changed.
    LateEntryChanged {
        allowed: bool,
    },
    /// The game waits for enough active players.
    WaitingForPlayers,
    /// A room was created.
    RoomCreated {
        room_id: String,
    },
    /// The receiver joined a room.
    RoomJoined {
        room_id: String,
        blind_config: BlindConfig,
    },
    /// Full state of the room for a player who reconnected.
    Rejoined {
        room_id: String,
        player_id: u32,
        session_token: String,
        chips: u32,
        game_started: bool,
        hand_number: u32,
        pot: u32,
        stage: String,
        community_cards: Vec<CardInfo>,
        hole_cards: Option<[CardInfo; 2]>,
        players: Vec<PlayerInfo>,
        sitting_out: Vec<u32>,
        folded: Vec<u32>,
        blind_config: BlindConfig,
        allow_late_entry: bool,
        is_host: bool,
        dealer_id: u32,
        small_blind_id: u32,
        big_blind_id: u32,
        small_blind: u32,
        big_blind: u32,
    },
    /// An error that concerns a room.
    RoomError {
        message: String,
    },
    /// Generic confirmation.
    Done,
    /// Answer to a ping.
    Pong,
    /// An error message.
    Error {
        message: String,
    },
}

/// What a server message says, with texts and lists as sequences.
#[allow(inconsistent_fields)]
pub enum ServerMessageView {
    Welcome {
        message: Seq<char>,
    },
    JoinedGame {
        player_id: u32,
        chips: u32,
        player_count: usize,
        session_token: Seq<char>,
        is_host: bool,
        allow_late_entry: bool,
    },
    PlayerJoined {
        player_id: u32,
        name: Seq<char>,
    },
    PlayerLeft {
        player_id: u32,
    },
    PlayerList {
        players: Seq<PlayerInfoView>,
    },
    ChatMessage {
        player_id: u32,
        message: Seq<char>,
    },
    GameStarted,
    NewHand {
        hand_number: u32,
        dealer_id: u32,
        small_blind_id: u32,
        big_blind_id: u32,
        small_blind: u32,
        big_blind: u32,
    },
    HoleCards {
        cards: Seq<CardInfo>,
    },
    CommunityCards {
        stage: Seq<char>,
        cards: Seq<CardInfo>,
    },
    YourTurn {
        current_bet: u32,
        your_bet: u32,
        pot: u32,
        min_raise: u32,
        valid_actions: Seq<PlayerAction>,
    },
    PlayerActed {
        player_id: u32,
        action: PlayerAction,
        amount: Option<u32>,
    },
    PotUpdate {
        pot: u32,
    },
    ChipUpdate {
        player_id: u32,
        chips: u32,
    },
    Showdown {
        hands: Seq<(u32, Seq<CardInfo>, Seq<char>)>,
    },
    AllInShowdown {
        hands: Seq<(u32, Seq<CardInfo>, EquityView)>,
        community_cards: Seq<CardInfo>,
    },
    RoundWinner {
        winners: Seq<(u32, u32, Seq<char>)>,
    },
    PlayerEliminated {
        player_id: u32,
    },
    GameOver {
        winner_id: u32,
        winner_name: Seq<char>,
    },
    BlindsIncreased {
        small_blind: u32,
        big_blind: u32,
    },
    TurnTimerStarted {
        player_id: u32,
        timeout_secs: u32,
    },
    PlayerSatOut {
        player_id: u32,
    },
    PlayerSatIn {
        player_id: u32,
    },
    LateEntryChanged {
        allowed: bool,
    },
    WaitingForPlayers,
    RoomCreated {
        room_id: Seq<char>,
    },
    RoomJoined {
        room_id: Seq<char>,
        blind_config: BlindConfig,
    },
    Rejoined {
        room_id: Seq<char>,
        player_id: u32,
        session_token: Seq<char>,
        chips: u32,
        game_started: bool,
        hand_number: u32,
        pot: u32,
        stage: Seq<char>,
        community_cards: Seq<CardInfo>,
        hole_cards: Option<Seq<CardInfo>>,
        players: Seq<PlayerInfoView>,
        sitting_out: Seq<u32>,
        folded: Seq<u32>,
        blind_config: BlindConfig,
        allow_late_entry: bool,
        is_host: bool,
        dealer_id: u32,
        small_blind_id: u32,
        big_blind_id: u32,
        small_blind: u32,
        big_blind: u32,
    },
    RoomError {
        message: Seq<char>,
    },
    Done,
    Pong,
    Error {
        message: Seq<char>,
    },
}

impl View for ServerMessage {
    type V = ServerMessageView;

    open spec fn view(&self) -> ServerMessageView {
        match *self {
            ServerMessage::Welcome { message } => ServerMessageView::Welcome {
                message: message@,
            },
            ServerMessage::JoinedGame { player_id, chips, player_count, session_token, is_host, allow_late_entry } => ServerMessageView::JoinedGame {
                player_id,
                chips,
                player_count,
                session_token: session_token@,
                is_host,
                allow_late_entry,
            },
            ServerMessage::PlayerJoined { player_id, name } => ServerMessageView::PlayerJoined {
                player_id,
                name: name@,
            },
            ServerMessage::PlayerLeft { player_id } => ServerMessageView::PlayerLeft {
                player_id,
            },
            ServerMessage::PlayerList { players } => ServerMessageView::PlayerList {
                players: player_views(players@),
            },
            ServerMessage::ChatMessage { player_id, message } => ServerMessageView::ChatMessage {
                player_id,
                message: message@,
            },
            ServerMessage::GameStarted => ServerMessageView::GameStarted,
            ServerMessage::NewHand { hand_number, dealer_id, small_blind_id, big_blind_id, small_blind, big_blind } => ServerMessageView::NewHand {
                hand_number,
                dealer_id,
                small_blind_id,
                big_blind_id,
                small_blind,
                big_blind,
            },
            ServerMessage::HoleCards { cards } => ServerMessageView::HoleCards {
                cards: cards@,
            },
            ServerMessage::CommunityCards { stage, cards } => ServerMessageView::CommunityCards {
                stage: stage@,
                cards: cards@,
            },
            ServerMessage::YourTurn { current_bet, your_bet, pot, min_raise, valid_actions } => ServerMessageView::YourTurn {
                current_bet,
                your_bet,
                pot,
                min_raise,
                valid_actions: valid_actions@,
            },
            ServerMessage::PlayerActed { player_id, action, amount } => ServerMessageView::PlayerActed {
                player_id,
                action,
                amount,
            },
            ServerMessage::PotUpdate { pot } => ServerMessageView::PotUpdate {
                pot,
            },
            ServerMessage::ChipUpdate { player_id, chips } => ServerMessageView::ChipUpdate {
                player_id,
                chips,
            },
            ServerMessage::Showdown { hands } => ServerMessageView::Showdown {
                hands: shown_hand_views(hands@),
            },
            ServerMessage::AllInShowdown { hands, community_cards } => ServerMessageView::AllInShowdown {
                hands: equity_hand_views(hands@),
                community_cards: community_cards@,
            },
            ServerMessage::RoundWinner { winners } => ServerMessageView::RoundWinner {
                winners: winner_views(winners@),
            },
            ServerMessage::PlayerEliminated { player_id } => ServerMessageView::PlayerEliminated {
                player_id,
            },
            ServerMessage::GameOver { winner_id, winner_name } => ServerMessageView::GameOver {
                winner_id,
                winner_name: winner_name@,
            },
            ServerMessage::BlindsIncreased { small_blind, big_blind } => ServerMessageView::BlindsIncreased {
                small_blind,
                big_blind,
            },
            ServerMessage::TurnTimerStarted { player_id, timeout_secs } => ServerMessageView::TurnTimerStarted {
                player_id,
                timeout_secs,
            },
            ServerMessage::PlayerSatOut { player_id } => ServerMessageView::PlayerSatOut {
                player_id,
            },
            ServerMessage::PlayerSatIn { player_id } => ServerMessageView::PlayerSatIn {
                player_id,
            },
            ServerMessage::LateEntryChanged { allowed } => ServerMessageView::LateEntryChanged {
                allowed,
            },
            ServerMessage::WaitingForPlayers => ServerMessageView::WaitingForPlayers,
            ServerMessage::RoomCreated { room_id } => ServerMessageView::RoomCreated {
                room_id: room_id@,
            },
            ServerMessage::RoomJoined { room_id, blind_config } => ServerMessageView::RoomJoined {
                room_id: room_id@,
                blind_config,
            },
            ServerMessage::Rejoined { room_id, player_id, session_token, chips, game_started, hand_number, pot, stage, community_cards, hole_cards, players, sitting_out, folded, blind_config, allow_late_entry, is_host, dealer_id, small_blind_id, big_blind_id, small_blind, big_blind } => ServerMessageView::Rejoined {
                room_id: room_id@,
                player_id,
                session_token: session_token@,
                chips,
                game_started,
                hand_number,
                pot,
                stage: stage@,
                community_cards: community_cards@,
                hole_cards: match hole_cards { Some(pair) => Some(pair@), None => None },
                players: player_views(players@),
                sitting_out: sitting_out@,
                folded: folded@,
                blind_config,
                allow_late_entry,
                is_host,
                dealer_id,
                small_blind_id,
                big_blind_id,
                small_blind,
                big_blind,
            },
            ServerMessage::RoomError { message } => ServerMessageView::RoomError {
                message: message@,
            },
            ServerMessage::Done => ServerMessageView::Done,
            ServerMessage::Pong => ServerMessageView::Pong,
            ServerMessage::Error { message } => ServerMessageView::Error {
                message: message@,
            },
        }
    }
}

/// The views of a run of server messages.
pub open spec fn message_views(msgs: Seq<ServerMessage>) -> Seq<ServerMessageView> {
    msgs.map_values(|m: ServerMessage| m@)
}

/// A digit or an ASCII letter.
pub open spec fn is_ascii_alphanumeric(c: char) -> bool {
    ('0' <= c && c <= '9') || ('a' <= c && c <= 'z') || ('A' <= c && c <= 'Z')
}

pub open spec fn all_alphanumeric(id: Seq<char>) -> bool {
    forall|i: int| 0 <= i < id.len() ==> is_ascii_alphanumeric(#[trigger] id[i])
}

/// What is wrong with a room ID, in the words of the error; nothing where it
/// is valid. The length that counts is that of the UTF-8 encoding.
pub open spec fn room_id_problem(id: Seq<char>) -> Option<Seq<char>> {
    if id.len() == 0 {
        Some("Room ID cannot be empty"@)
    } else if vstd::utf8::encode_utf8(id).len() >= 20 {
        Some("Room ID must be fewer than 20 characters"@)
    } else if !all_alphanumeric(id) {
        Some("Room ID must be alphanumeric"@)
    } else {
        None
    }
}

/// A room ID is valid exactly when it has 1 to 19 characters, each a digit
/// or an ASCII letter.
pub proof fn lemma_valid_room_id(id: Seq<char>)
    ensures
        room_id_problem(id) is None <==> 1 <= id.len() <= 19 && all_alphanumeric(id),
{
    if all_alphanumeric(id) {
        assert(vstd::utf8::is_ascii_chars(id)) by {
            assert forall|i: int| 0 <= i < id.len() implies '\0' <= #[trigger] id[i] <= '\u{7f}' by {
                assert(is_ascii_alphanumeric(id[i]));
            }
        }
        vstd::utf8::is_ascii_chars_encode_utf8(id);
    }
}

fn byte_is_alphanumeric(b: u8) -> (r: bool)
    ensures
        r == ((48 <= b <= 57) || (97 <= b <= 122) || (65 <= b <= 90)),
{
    (48 <= b && b <= 57) || (97 <= b && b <= 122) || (65 <= b && b <= 90)
}

/// Checks a room ID: not empty, fewer than 20 bytes, digits and ASCII
/// letters only.
#[verifier::loop_isolation(false)]
pub fn validate_room_id(id: &str) -> (r: Result<(), String>)
    ensures
        r is Ok <==> room_id_problem(id@) is None,
        r matches Err(message) ==> Some(message@) == room_id_problem(id@),
{
    if id.is_empty() {
        return Err("Room ID cannot be empty".to_string());
    }
    if id.as_bytes().len() >= 20 {
        return Err("Room ID must be fewer than 20 characters".to_string());
    }
    if !id.is_ascii() {
        proof {
            if all_alphanumeric(id@) {
                assert forall|i: int| 0 <= i < id@.len() implies '\0' <= #[trigger] id@[i] <= '\u{7f}' by {
                    assert(is_ascii_alphanumeric(id@[i]));
                }
                assert(vstd::utf8::is_ascii_chars(id@));
            }
        }
        return Err("Room ID must be alphanumeric".to_string());
    }
    let n = id.unicode_len();
    let mut i: usize = 0;
    while i < n
        invariant
            i <= n,
            n == id@.len(),
            id.is_ascii(),
            forall|k: int| 0 <= k < i ==> is_ascii_alphanumeric(#[trigger] id@[k]),
        decreases n - i,
    {
        let b: u8 = id.get_ascii(i);
        if !byte_is_alphanumeric(b) {
            proof {
                let c = id@[i as int];
                assert('\0' <= c <= '\u{7f}');
                assert(!is_ascii_alphanumeric(c));
            }
            return Err("Room ID must be alphanumeric".to_string());
        }
        proof {
            let c = id@[i as int];
            assert('\0' <= c <= '\u{7f}');
            assert(is_ascii_alphanumeric(c));
        }
        i = i + 1;
    }
    Ok(())
}

} // verus!
