use std::time::Instant;

use poker_core::cards::{get_all_cards, Board, Card, CardNumber, CardSuit, Hand};
use poker_core::directory::{RoomDirectory, RoomError};
use poker_core::equity::{calculate_equity_multi, equity_tally, known_list, remaining_deck, round_leaders, EquityTally};
use poker_core::game::{GamePhase, PlayerStatus};
use poker_core::handler::{action_error_message, Next, Step, AUTO_ACT_DELAY_MS, NEXT_HAND_DELAY_MS, RUN_OUT_DELAY_MS};
use poker_core::game::ActionError;
use poker_core::lobby::room_error_message;
use poker_core::protocol::{BlindConfig, ClientMessage, PlayerAction, ServerMessage};
use poker_core::room::{JoinError, Outbound, RejoinError, Room, SESSION_GRACE_SECS};
use poker_core::text::{number_text, token_from_text, token_to_text};

fn c(rank: CardNumber, suit: CardSuit) -> Card {
    Card(rank, suit)
}

fn no_blinds() -> BlindConfig {
    BlindConfig { interval_secs: 0, increase_percent: 0 }
}

fn room_of(names: &[&str]) -> Room {
    let mut room = Room::new(no_blinds(), 50);
    for name in names {
        assert!(room.can_join());
        room.join(name.to_string()).unwrap();
    }
    room
}

fn stacked(top: &[Card]) -> Vec<Card> {
    let mut deck: Vec<Card> = get_all_cards().into_iter().filter(|card| !top.contains(card)).collect();
    for card in top.iter().rev() {
        deck.push(*card);
    }
    deck
}

fn start_with(room: &mut Room, deck: Vec<Card>) -> Step {
    room.game_state.game_started = true;
    room.game_state.starting_chips = room.game_state.starting_bbs * room.game_state.big_blind;
    let walk = room.game_state.player_ids();
    assert!(room.game_state.can_start_hand(false, deck.len()));
    room.deal_hand(None, deck, &walk)
}

fn to_all<'a>(room: &Room, out: &'a [Outbound]) -> Vec<&'a ServerMessage> {
    out.iter().filter(|o| o.recipients == room.connected).map(|o| &o.message).collect()
}

fn chips_in_play(room: &Room) -> u64 {
    room.game_state.players.values().map(|p| p.chips as u64).sum::<u64>() + room.game_state.pot as u64
}

#[test]
fn messages_reach_whom_they_are_for() {
    let mut room = room_of(&["A", "B", "C"]);
    assert_eq!(room.send_to_player(2, ServerMessage::Pong).recipients, vec![2]);
    assert_eq!(room.send_to_player(9, ServerMessage::Pong).recipients, Vec::<u32>::new());
    assert_eq!(room.broadcast(ServerMessage::Pong).recipients, vec![1, 2, 3]);
    assert_eq!(room.broadcast_except(ServerMessage::Pong, 2).recipients, vec![1, 3]);
    let out = room.broadcast_all(vec![ServerMessage::GameStarted, ServerMessage::Pong]);
    assert!(matches!(out[0].message, ServerMessage::GameStarted));
    assert!(matches!(out[1].message, ServerMessage::Pong));
    assert_eq!(out[1].recipients, vec![1, 2, 3]);
    room.disconnect(2);
    assert_eq!(room.broadcast(ServerMessage::Pong).recipients, vec![1, 3]);
    assert!(!room.is_empty());
}

#[test]
fn joining_issues_a_session_and_tells_the_others() {
    let mut room = Room::new(no_blinds(), 50);
    let first = room.join("Alice".to_string()).unwrap();
    assert_eq!((first.player_id, first.player_count), (1, 1));
    assert!(first.notice.recipients.is_empty());
    let second = room.join("Bob".to_string()).unwrap();
    assert_eq!((second.player_id, second.player_count), (2, 2));
    assert_eq!(second.notice.recipients, vec![1]);
    match &second.notice.message {
        ServerMessage::PlayerJoined { player_id, name } => assert_eq!((*player_id, name.as_str()), (2, "Bob")),
        other => panic!("{:?}", other),
    }
    assert_ne!(first.session_token, second.session_token);
    assert_eq!(room.sessions[&first.session_token], 1);
    assert_eq!(room.player_sessions[&2], second.session_token);
    assert_eq!(room.game_state.host_id, 1);
    assert_eq!(room.game_state.players[&2].chips, 1000);
    assert_eq!(room.connected, vec![1, 2]);

    let named = room.join_with_token("Carol".to_string(), 77).unwrap();
    assert_eq!(named.session_token, 77);
    assert_eq!(room.sessions[&77], 3);
}

#[test]
fn late_entry_gets_the_stack_fixed_at_the_start_and_sits_out() {
    let mut room = room_of(&["Alice", "Bob"]);
    let toggled = room.process_client_message(2, &ClientMessage::ToggleLateEntry);
    assert!(matches!(&toggled.outbound[0].message, ServerMessage::Error { message } if message == "Only the host can toggle late entry"));
    assert_eq!(toggled.outbound[0].recipients, vec![2]);
    assert!(!room.game_state.allow_late_entry);
    let toggled = room.process_client_message(1, &ClientMessage::ToggleLateEntry);
    assert!(matches!(toggled.outbound[0].message, ServerMessage::LateEntryChanged { allowed: true }));
    assert!(room.game_state.allow_late_entry);

    assert!(room.can_process(&ClientMessage::StartGame));
    let step = room.process_client_message(1, &ClientMessage::StartGame);
    assert!(matches!(step.outbound[0].message, ServerMessage::GameStarted));
    assert!(room.game_state.game_started);
    assert_eq!(room.game_state.starting_chips, 1000);
    assert_eq!(room.game_state.hand_number, 1);
    // The blinds double behind the back of the stack that was fixed.
    room.game_state.big_blind = 40;
    room.game_state.small_blind = 20;

    let joined = room.join("Carol".to_string()).unwrap();
    let carol = &room.game_state.players[&joined.player_id];
    assert_eq!(carol.chips, 1000);
    assert!(carol.sitting_out);
    assert_eq!(carol.status, PlayerStatus::Waiting);
    assert_eq!(carol.hole_cards, None);
    assert_eq!(joined.player_count, 3);
    assert_eq!(room.game_state.player_order, vec![1, 2, 3]);

    let replies = room.join_replies("table", &joined);
    assert!(matches!(&replies[0], ServerMessage::RoomJoined { room_id, .. } if room_id == "table"));
    match &replies[1] {
        ServerMessage::JoinedGame { player_id, chips, player_count, session_token, is_host, allow_late_entry } => {
            assert_eq!((*player_id, *chips, *player_count, *is_host, *allow_late_entry), (3, 1000, 3, false, true));
            assert_eq!(session_token, &token_to_text(joined.session_token));
        }
        other => panic!("{:?}", other),
    }
    assert!(matches!(&replies[2], ServerMessage::PlayerList { players } if players.len() == 3));
    assert!(matches!(replies[3], ServerMessage::GameStarted));
    // The positions are counted over the seats as they are now, the new one included.
    assert!(matches!(replies[4], ServerMessage::NewHand { hand_number: 1, dealer_id: 2, small_blind_id: 3, big_blind_id: 1, .. }));
    assert!(matches!(replies[5], ServerMessage::PotUpdate { pot: 30 }));
    assert!(matches!(replies[6], ServerMessage::PlayerSatOut { player_id: 3 }));
    assert_eq!(replies.len(), 7);

    let sat_in = room.process_client_message(3, &ClientMessage::SitIn);
    assert!(matches!(sat_in.outbound[0].message, ServerMessage::PlayerSatIn { player_id: 3 }));
    assert!(room.process_client_message(3, &ClientMessage::SitIn).outbound.is_empty());

    // The hand ends, and the late player takes part in the next one.
    let current = room.game_state.current_player_id().unwrap();
    let step = room.process_client_message(current, &ClientMessage::Fold);
    assert_eq!(step.next, Next::NextHand { delay_ms: NEXT_HAND_DELAY_MS });
    assert!(room.game_state.can_start_hand(false, 52));
    room.start_next_hand();
    let carol = &room.game_state.players[&3];
    assert!(carol.hole_cards.is_some());
    assert!(carol.status == PlayerStatus::Active);
    assert_eq!(room.game_state.hand_number, 2);
}

#[test]
fn joining_a_running_game_needs_late_entry() {
    let mut room = room_of(&["Alice", "Bob"]);
    room.process_client_message(1, &ClientMessage::StartGame);
    let players = room.game_state.player_count();
    assert_eq!(room.join("Carol".to_string()).err(), Some(JoinError::GameInProgress));
    assert_eq!(room.game_state.player_count(), players);
    assert_eq!(room.connected, vec![1, 2]);
}

#[test]
fn starting_needs_two_players_and_happens_once() {
    let mut room = room_of(&["Alice"]);
    let step = room.process_client_message(1, &ClientMessage::StartGame);
    assert!(matches!(&step.outbound[0].message, ServerMessage::Error { message } if message == "Need at least 2 players to start"));
    assert!(!room.game_state.game_started);
    room.join("Bob".to_string()).unwrap();
    let step = room.start_game(2);
    assert!(matches!(step.outbound[0].message, ServerMessage::GameStarted));
    assert!(matches!(step.outbound[1].message, ServerMessage::NewHand { hand_number: 1, .. }));
    let cards: Vec<&Outbound> =
        step.outbound.iter().filter(|o| matches!(o.message, ServerMessage::HoleCards { .. })).collect();
    assert_eq!(cards.len(), 2);
    assert!(cards.iter().all(|o| o.recipients.len() == 1));
    let turn = step.outbound.iter().find(|o| matches!(o.message, ServerMessage::YourTurn { .. })).unwrap();
    assert_eq!(turn.recipients, vec![1]);
    assert!(matches!(step.outbound.last().unwrap().message, ServerMessage::TurnTimerStarted { player_id: 1, timeout_secs: 30 }));
    assert_eq!(step.next, Next::AwaitTurn { player_id: 1, turn: 1, timeout_secs: 30 });
    assert_eq!(room.turn_counter, 1);
    let step = room.start_game(1);
    assert!(matches!(&step.outbound[0].message, ServerMessage::Error { message } if message == "Game already started"));
    assert_eq!(room.game_state.hand_number, 1);
}

#[test]
fn heads_up_fold_through_the_room() {
    let mut room = room_of(&["Alice", "Bob"]);
    start_with(&mut room, get_all_cards());
    assert_eq!(chips_in_play(&room), 2000);
    let step = room.process_action(1, PlayerAction::Fold, 0);
    let told = to_all(&room, &step.outbound);
    assert!(matches!(told[0], ServerMessage::PlayerActed { player_id: 1, action: PlayerAction::Fold, amount: None }));
    assert!(matches!(told[1], ServerMessage::PotUpdate { pot: 30 }));
    assert!(matches!(told[2], ServerMessage::RoundWinner { .. }));
    assert!(!told.iter().any(|m| matches!(m, ServerMessage::Showdown { .. })));
    assert_eq!(step.next, Next::NextHand { delay_ms: 2000 });
    assert_eq!(room.game_state.players[&1].chips, 990);
    assert_eq!(room.game_state.players[&2].chips, 1010);
    let step = room.start_next_hand();
    assert_eq!(room.game_state.dealer_index, 0);
    assert!(matches!(step.outbound[0].message, ServerMessage::NewHand { hand_number: 2, dealer_id: 1, .. }));
    assert_eq!(chips_in_play(&room), 2000);
}

#[test]
fn all_in_flip_runs_out_the_board() {
    let mut room = room_of(&["Alice", "Bob"]);
    let deck = stacked(&[
        c(CardNumber::Ace, CardSuit::Spades),
        c(CardNumber::Ace, CardSuit::Hearts),
        c(CardNumber::King, CardSuit::Spades),
        c(CardNumber::King, CardSuit::Hearts),
        c(CardNumber::Two, CardSuit::Clubs),
        c(CardNumber::Seven, CardSuit::Diamonds),
        c(CardNumber::Nine, CardSuit::Clubs),
        c(CardNumber::Four, CardSuit::Hearts),
        c(CardNumber::Jack, CardSuit::Diamonds),
    ]);
    start_with(&mut room, deck);
    let step = room.process_action(1, PlayerAction::AllIn, 0);
    assert!(matches!(step.next, Next::AwaitTurn { player_id: 2, .. }));
    let step = room.process_action(2, PlayerAction::Call, 0);
    assert_eq!(step.next, Next::Reveal { delay_ms: RUN_OUT_DELAY_MS });
    assert_eq!(room.game_state.phase, GamePhase::Flop);
    assert_eq!(room.game_state.pot, 2000);
    assert!(matches!(&step.outbound.last().unwrap().message, ServerMessage::CommunityCards { stage, .. } if stage == "flop"));

    let reveal = room.allin_reveal().unwrap();
    assert_eq!(reveal.recipients, vec![1, 2]);
    match &reveal.message {
        ServerMessage::AllInShowdown { hands, community_cards } => {
            assert_eq!(hands.len(), 2);
            assert_eq!(community_cards.len(), 3);
            assert_eq!((hands[0].0, hands[1].0), (1, 2));
            let mut whole = 0.0;
            for (_, _, equity) in hands {
                assert_eq!(equity.trials, 1000);
                assert_eq!(equity.shares.len(), 2);
                whole += (equity.shares[0] as f64 + equity.shares[1] as f64 / 2.0) / equity.trials as f64;
            }
            assert!((whole - 1.0).abs() < 1e-9);
            assert!(hands[0].2.shares[0] > hands[1].2.shares[0]);
        }
        other => panic!("{:?}", other),
    }

    let step = room.run_out_step();
    assert_eq!(step.next, Next::RunOut { delay_ms: 500 });
    assert_eq!(room.game_state.phase, GamePhase::Turn);
    let step = room.run_out_step();
    assert_eq!(step.next, Next::RunOut { delay_ms: 500 });
    assert!(matches!(&step.outbound[0].message, ServerMessage::CommunityCards { stage, cards } if stage == "river" && cards.len() == 5));
    let step = room.run_out_step();
    let told = to_all(&room, &step.outbound);
    assert!(matches!(told[0], ServerMessage::Showdown { .. }));
    match told[1] {
        ServerMessage::RoundWinner { winners } => assert_eq!(winners, &vec![(1, 2000, "Pair".to_string())]),
        other => panic!("{:?}", other),
    }
    assert!(told.iter().any(|m| matches!(m, ServerMessage::GameOver { winner_id: 1, .. })));
    assert_eq!(step.next, Next::Idle);
    assert_eq!(room.game_state.players[&1].chips, 2000);
    assert!(!room.game_state.game_started);
}

#[test]
fn refused_action_is_answered_to_the_player_alone() {
    let mut room = room_of(&["Alice", "Bob", "Carol"]);
    start_with(&mut room, get_all_cards());
    let current = room.game_state.current_player_id().unwrap();
    let other = if current == 1 { 2 } else { 1 };
    let pot = room.game_state.pot;
    let step = room.process_action(other, PlayerAction::Fold, 0);
    assert_eq!(step.outbound.len(), 1);
    assert_eq!(step.outbound[0].recipients, vec![other]);
    assert!(matches!(&step.outbound[0].message, ServerMessage::Error { message } if message == "Not your turn"));
    assert_eq!(step.next, Next::Idle);
    assert_eq!(room.game_state.pot, pot);
    let step = room.process_action(current, PlayerAction::Check, 0);
    assert!(matches!(&step.outbound[0].message, ServerMessage::Error { message } if message == "Invalid action. Valid: [Fold, Call, Raise, AllIn]"));
}

#[test]
fn error_texts() {
    let valid = vec![PlayerAction::Fold, PlayerAction::Check];
    assert_eq!(action_error_message(ActionError::GameNotStarted, &valid), "Game not started");
    assert_eq!(action_error_message(ActionError::NotYourTurn, &valid), "Not your turn");
    assert_eq!(action_error_message(ActionError::InvalidAction, &valid), "Invalid action. Valid: [Fold, Check]");
    assert_eq!(action_error_message(ActionError::InvalidAction, &vec![]), "Invalid action. Valid: []");
    assert_eq!(action_error_message(ActionError::PlayerNotFound, &valid), "Player not found");
    assert_eq!(action_error_message(ActionError::CannotCheck, &valid), "Cannot check, must call or raise");
    assert_eq!(
        action_error_message(ActionError::NotEnoughChips { have: 1000, need: 4294967315 }, &valid),
        "Not enough chips. Have 1000, need 4294967315"
    );
    assert_eq!(action_error_message(ActionError::BelowMinRaise { min_raise: 20 }, &valid), "Minimum raise is 20");
    assert_eq!(room_error_message(RoomError::EmptyId, ""), "Room ID cannot be empty");
    assert_eq!(room_error_message(RoomError::LongId, "x"), "Room ID must be fewer than 20 characters");
    assert_eq!(room_error_message(RoomError::BadId, "x"), "Room ID must be alphanumeric");
    assert_eq!(room_error_message(RoomError::Exists, "main"), "Room 'main' already exists");
    assert_eq!(room_error_message(RoomError::NotFound, "main"), "Room 'main' not found");
    assert_eq!(room_error_message(RoomError::GameInProgress, "main"), "Game already in progress");
    assert_eq!(room_error_message(RoomError::InvalidToken, "main"), "Invalid or expired session token");
    assert_eq!(room_error_message(RoomError::SessionExpired, "main"), "Session expired — player was removed");
    assert_eq!(number_text(0), "0");
    assert_eq!(number_text(10), "10");
    assert_eq!(number_text(u64::MAX), "18446744073709551615");
}

#[test]
fn tokens_are_32_hex_digits() {
    assert_eq!(token_to_text(0), "00000000000000000000000000000000");
    assert_eq!(token_to_text(0xabc), "00000000000000000000000000000abc");
    assert_eq!(token_to_text(u128::MAX), "ffffffffffffffffffffffffffffffff");
    for token in [0, 1, 0xdead_beef, u128::MAX, 0x0123_4567_89ab_cdef_0123_4567_89ab_cdef] {
        assert_eq!(token_from_text(&token_to_text(token)), Some(token));
    }
    assert_eq!(token_from_text(""), None);
    assert_eq!(token_from_text("abc"), None);
    assert_eq!(token_from_text("0000000000000000000000000000000g"), None);
    assert_eq!(token_from_text("0000000000000000000000000000000A"), None);
    assert_eq!(token_from_text("000000000000000000000000000000001"), None);
    assert_eq!(token_from_text("0000000000000000000000000000000é"), None);
}

#[test]
fn turn_timeout_checks_or_folds_and_sits_out() {
    let mut room = room_of(&["Alice", "Bob", "Carol"]);
    let step = start_with(&mut room, get_all_cards());
    let (player, turn) = match step.next {
        Next::AwaitTurn { player_id, turn, timeout_secs } => {
            assert_eq!(timeout_secs, 30);
            (player_id, turn)
        }
        other => panic!("{:?}", other),
    };
    // A timer of an earlier turn, or for another player, does nothing.
    assert!(room.force_timeout_action(turn + 1, player).outbound.is_empty());
    let other = if player == 1 { 2 } else { 1 };
    assert!(room.force_timeout_action(turn, other).outbound.is_empty());
    assert_eq!(room.game_state.players[&player].status, PlayerStatus::Active);

    // The player has to call, so the timeout folds them and sits them out.
    let step = room.force_timeout_action(turn, player);
    let told = to_all(&room, &step.outbound);
    assert!(matches!(told[0], ServerMessage::PlayerSatOut { player_id } if *player_id == player));
    assert!(matches!(told[1], ServerMessage::PlayerActed { action: PlayerAction::Fold, .. }));
    assert_eq!(room.game_state.players[&player].status, PlayerStatus::Folded);
    assert!(room.game_state.players[&player].sitting_out);
    // The old timer is stale now.
    assert!(room.force_timeout_action(turn, player).outbound.is_empty());

    // The small blind calls; the big blind can check, and a timeout checks.
    let (small, turn) = match step.next {
        Next::AwaitTurn { player_id, turn, .. } => (player_id, turn),
        other => panic!("{:?}", other),
    };
    assert_eq!(room.turn_counter, turn);
    let step = room.process_action(small, PlayerAction::Call, 0);
    let (big, turn) = match step.next {
        Next::AwaitTurn { player_id, turn, .. } => (player_id, turn),
        other => panic!("{:?}", other),
    };
    let step = room.force_timeout_action(turn, big);
    let told = to_all(&room, &step.outbound);
    assert!(matches!(told[0], ServerMessage::PlayerActed { action: PlayerAction::Check, amount: None, .. }));
    assert!(!told.iter().any(|m| matches!(m, ServerMessage::PlayerSatOut { .. })));
    assert!(!room.game_state.players[&big].sitting_out);
    assert_eq!(room.game_state.phase, GamePhase::Flop);
}

#[test]
fn sitting_out_player_is_acted_for_without_a_timer() {
    let mut room = room_of(&["Alice", "Bob", "Carol"]);
    room.game_state.set_sitting_out(2);
    room.game_state.dealer_index = 2;
    let step = start_with(&mut room, get_all_cards());
    assert!(matches!(step.next, Next::AwaitTurn { player_id: 1, .. }));
    let step = room.process_action(1, PlayerAction::Call, 0);
    assert_eq!(step.next, Next::AutoAct { player_id: 2, action: PlayerAction::Fold, delay_ms: AUTO_ACT_DELAY_MS });
    assert!(!step.outbound.iter().any(|o| matches!(o.message, ServerMessage::TurnTimerStarted { .. })));
    let turn = step.outbound.last().unwrap();
    assert!(matches!(turn.message, ServerMessage::YourTurn { .. }));
    assert_eq!(turn.recipients, vec![2]);
    let step = room.process_action(2, PlayerAction::Fold, 0);
    assert!(matches!(step.next, Next::AwaitTurn { player_id: 3, .. }));
    let out = room.process_client_message(3, &ClientMessage::SitOut);
    assert!(matches!(out.outbound[0].message, ServerMessage::PlayerSatOut { player_id: 3 }));
    assert!(room.process_client_message(3, &ClientMessage::SitOut).outbound.is_empty());
    assert!(room.process_client_message(9, &ClientMessage::SitOut).outbound.is_empty());
}

#[test]
fn other_messages_in_a_room() {
    let mut room = room_of(&["Alice", "Bob"]);
    let step = room.process_client_message(1, &ClientMessage::Ping);
    assert!(matches!(step.outbound[0].message, ServerMessage::Pong));
    assert_eq!(step.outbound[0].recipients, vec![1]);
    let step = room.process_client_message(2, &ClientMessage::Chat { message: "hi".to_string() });
    assert!(matches!(&step.outbound[0].message, ServerMessage::ChatMessage { player_id: 2, message } if message == "hi"));
    assert_eq!(step.outbound[0].recipients, vec![1, 2]);
    let step = room.process_client_message(1, &ClientMessage::GetPlayers);
    match &step.outbound[0].message {
        ServerMessage::PlayerList { players } => {
            let mut ids: Vec<u32> = players.iter().map(|p| p.id).collect();
            ids.sort();
            assert_eq!(ids, vec![1, 2]);
            assert!(players.iter().all(|p| p.chips == 1000));
        }
        other => panic!("{:?}", other),
    }
    for msg in [
        ClientMessage::Join { name: "x".to_string() },
        ClientMessage::CreateRoom { room_id: "x".to_string(), blind_config: no_blinds(), starting_bbs: 50 },
        ClientMessage::JoinRoom { room_id: "x".to_string(), name: "x".to_string() },
        ClientMessage::Rejoin { room_id: "x".to_string(), session_token: "x".to_string() },
    ] {
        let step = room.process_client_message(1, &msg);
        assert!(matches!(&step.outbound[0].message, ServerMessage::Error { message } if message == "Already in a room"));
    }
    let step = room.process_client_message(1, &ClientMessage::Fold);
    assert!(matches!(&step.outbound[0].message, ServerMessage::Error { message } if message == "Game not started"));
}

#[test]
fn disconnect_in_a_hand_holds_the_seat_until_the_grace_period_is_over() {
    let mut room = room_of(&["Alice", "Bob", "Carol"]);
    start_with(&mut room, get_all_cards());
    let token = room.player_sessions[&2];
    let pot = room.game_state.pot;

    let gone = room.disconnect(2);
    assert!(gone.held);
    assert!(!gone.room_empty);
    assert_eq!(gone.outbound.len(), 1);
    assert!(matches!(gone.outbound[0].message, ServerMessage::PlayerSatOut { player_id: 2 }));
    assert_eq!(gone.outbound[0].recipients, vec![1, 3]);
    assert!(room.game_state.players[&2].sitting_out);
    assert!(room.disconnected_at.contains_key(&2));
    assert_eq!(room.connected, vec![1, 3]);

    // Too early for the reaper.
    assert!(room.reap(2).is_none());
    assert!(room.reap_after(2, Some(SESSION_GRACE_SECS - 1)).is_none());
    assert!(room.reap_after(2, None).is_none());
    assert!(room.game_state.players.contains_key(&2));

    // The player comes back within the grace period.
    assert_eq!(room.rejoin(token), Ok(2));
    assert!(!room.disconnected_at.contains_key(&2));
    assert_eq!(room.connected, vec![1, 3, 2]);
    let text = token_to_text(token);
    match room.build_rejoin_snapshot("table", 2, &text) {
        ServerMessage::Rejoined {
            room_id,
            player_id,
            session_token,
            chips,
            game_started,
            hand_number,
            pot: shown_pot,
            stage,
            community_cards,
            hole_cards,
            players,
            sitting_out,
            folded,
            is_host,
            dealer_id,
            small_blind_id,
            big_blind_id,
            small_blind,
            big_blind,
            ..
        } => {
            assert_eq!((room_id.as_str(), player_id, session_token), ("table", 2, text.clone()));
            assert_eq!(chips, room.game_state.players[&2].chips);
            assert!(game_started);
            assert_eq!((hand_number, shown_pot, stage.as_str()), (1, pot, "Preflop"));
            assert!(community_cards.is_empty());
            let held = room.game_state.players[&2].hole_cards.unwrap();
            let shown = hole_cards.unwrap();
            assert_eq!((shown[0].to_card(), shown[1].to_card()), held);
            assert_eq!(players.len(), 3);
            assert_eq!(sitting_out, vec![2]);
            assert!(folded.is_empty());
            assert!(!is_host);
            assert_eq!((dealer_id, small_blind_id, big_blind_id), (2, 3, 1));
            assert_eq!((small_blind, big_blind), (10, 20));
        }
        other => panic!("{:?}", other),
    }

    // A second disconnect that times out removes the player for good.
    let gone = room.disconnect(2);
    assert!(gone.held);
    assert!(gone.outbound.is_empty());
    let left = room.reap_after(2, Some(SESSION_GRACE_SECS)).unwrap();
    assert!(matches!(left.message, ServerMessage::PlayerLeft { player_id: 2 }));
    assert_eq!(left.recipients, vec![1, 3]);
    assert!(!room.game_state.players.contains_key(&2));
    assert_eq!(room.game_state.player_order, vec![1, 3]);
    assert!(!room.sessions.contains_key(&token));
    assert!(!room.player_sessions.contains_key(&2));
    assert_eq!(room.rejoin(token), Err(RejoinError::InvalidToken));
    assert_eq!(SESSION_GRACE_SECS, 300);
}

#[test]
fn reaper_waits_for_the_clock() {
    let mut room = room_of(&["Alice", "Bob"]);
    start_with(&mut room, get_all_cards());
    let now = Instant::now();
    room.disconnect_at(2, now);
    assert_eq!(room.disconnected_at[&2], now);
    assert!(room.reap(2).is_none());
    room.disconnected_at.insert(2, now.checked_sub(std::time::Duration::from_secs(301)).unwrap());
    assert!(room.reap(2).is_some());
    assert!(room.reap(2).is_none());
}

#[test]
fn session_of_a_player_who_is_gone_expires() {
    let mut room = room_of(&["Alice", "Bob"]);
    let token = room.player_sessions[&2];
    room.game_state.remove_player(2);
    assert_eq!(room.rejoin(token), Err(RejoinError::SessionExpired));
    assert_eq!(room.rejoin(token), Err(RejoinError::InvalidToken));
    assert_eq!(room.rejoin(12345), Err(RejoinError::InvalidToken));
}

#[test]
fn directory_creates_joins_and_cleans_up() {
    let mut rooms = RoomDirectory::new();
    assert_eq!(rooms.create_room("main", no_blinds(), 50), Ok(()));
    assert_eq!(rooms.create_room("main", no_blinds(), 50), Err(RoomError::Exists));
    assert_eq!(rooms.create_room("", no_blinds(), 50), Err(RoomError::EmptyId));
    assert_eq!(rooms.create_room("12345678901234567890", no_blinds(), 50), Err(RoomError::LongId));
    assert_eq!(rooms.create_room("room-1", no_blinds(), 50), Err(RoomError::BadId));
    assert_eq!(rooms.create_room("side", BlindConfig { interval_secs: 60, increase_percent: 50 }, 100), Ok(()));
    assert_eq!(rooms.list_rooms(), vec!["main".to_string(), "side".to_string()]);
    assert_eq!(rooms.find("side"), Some(1));
    assert_eq!(rooms.find("none"), None);
    assert_eq!(rooms.rooms[1].game_state.starting_bbs, 100);
    assert_eq!(rooms.rooms[1].blind_config.increase_percent, 50);

    assert_eq!(rooms.join_room("none", "Alice".to_string()).err(), Some(RoomError::NotFound));
    let alice = rooms.join_room("main", "Alice".to_string()).unwrap();
    let bob = rooms.join_room("main", "Bob".to_string()).unwrap();
    assert_eq!((alice.player_id, bob.player_id), (1, 2));
    assert_eq!(rooms.join_room("side", "Carol".to_string()).unwrap().player_id, 1);
    assert_eq!(rooms.rooms[1].game_state.players[&1].chips, 2000);

    // Before the game starts a disconnect removes the player at once.
    let gone = rooms.disconnect_player("main", 1).unwrap();
    assert!(!gone.held);
    assert!(!gone.room_empty);
    assert!(matches!(gone.outbound[0].message, ServerMessage::PlayerLeft { player_id: 1 }));
    assert_eq!(gone.outbound[0].recipients, vec![2]);
    assert!(!rooms.rooms[0].game_state.players.contains_key(&1));
    assert_eq!(
        rooms.rejoin_room("main", &token_to_text(alice.session_token)),
        Err(RoomError::InvalidToken)
    );
    assert_eq!(rooms.rejoin_room("main", "nonsense"), Err(RoomError::InvalidToken));
    assert_eq!(rooms.rejoin_room("none", &token_to_text(bob.session_token)), Err(RoomError::NotFound));
    assert_eq!(rooms.rejoin_room("main", &token_to_text(bob.session_token)), Ok(2));

    // The last disconnect empties the room, and the room goes.
    let gone = rooms.disconnect_player("main", 2).unwrap();
    assert!(gone.room_empty);
    assert_eq!(rooms.list_rooms(), vec!["side".to_string()]);
    assert_eq!(rooms.find("main"), None);
    assert!(rooms.disconnect_player("main", 2).is_none());
    assert!(rooms.reap_player("main", 2).is_none());
    assert!(rooms.reap_player("side", 1).is_none());
    assert_eq!(rooms.create_room("main", no_blinds(), 50), Ok(()));
}

#[test]
fn directory_refuses_a_rejoin_after_the_grace_period() {
    let mut rooms = RoomDirectory::new();
    rooms.create_room("main", no_blinds(), 50).unwrap();
    let alice = rooms.join_room("main", "Alice".to_string()).unwrap();
    rooms.join_room("main", "Bob".to_string()).unwrap();
    rooms.rooms[0].start_game(1);
    let text = token_to_text(alice.session_token);
    assert!(rooms.disconnect_player("main", 1).unwrap().held);
    assert_eq!(rooms.rejoin_room("main", &text), Ok(1));
    assert!(rooms.disconnect_player("main", 1).unwrap().held);
    let long_ago = Instant::now().checked_sub(std::time::Duration::from_secs(600)).unwrap();
    rooms.rooms[0].disconnected_at.insert(1, long_ago);
    let reaped = rooms.reap_player("main", 1).unwrap();
    assert!(matches!(reaped.left.message, ServerMessage::PlayerLeft { player_id: 1 }));
    assert_eq!(reaped.left.recipients, vec![2]);
    assert!(!reaped.room_empty);
    assert_eq!(rooms.rejoin_room("main", &text), Err(RoomError::InvalidToken));
    assert_eq!(rooms.join_room("main", "Carol".to_string()).err(), Some(RoomError::GameInProgress));
}

#[test]
fn lobby_answers() {
    let mut rooms = RoomDirectory::new();
    let create = ClientMessage::CreateRoom { room_id: "main".to_string(), blind_config: no_blinds(), starting_bbs: 50 };
    let reply = rooms.lobby_message(&create);
    assert!(matches!(&reply.replies[0], ServerMessage::RoomCreated { room_id } if room_id == "main"));
    assert_eq!(reply.bound, None);
    let reply = rooms.lobby_message(&create);
    assert!(matches!(&reply.replies[0], ServerMessage::RoomError { message } if message == "Room 'main' already exists"));
    let reply = rooms.lobby_message(&ClientMessage::Ping);
    assert!(matches!(reply.replies[0], ServerMessage::Pong));
    let reply = rooms.lobby_message(&ClientMessage::Fold);
    assert!(matches!(&reply.replies[0], ServerMessage::Error { message } if message == "Must create or join a room first"));
    let reply = rooms.lobby_message(&ClientMessage::JoinRoom { room_id: "none".to_string(), name: "A".to_string() });
    assert!(matches!(&reply.replies[0], ServerMessage::RoomError { message } if message == "Room 'none' not found"));

    let reply = rooms.lobby_message(&ClientMessage::JoinRoom { room_id: "main".to_string(), name: "Alice".to_string() });
    assert_eq!(reply.bound, Some(1));
    assert!(matches!(reply.replies[0], ServerMessage::RoomJoined { .. }));
    let token = match &reply.replies[1] {
        ServerMessage::JoinedGame { player_id: 1, chips: 1000, player_count: 1, session_token, is_host: true, .. } => {
            session_token.clone()
        }
        other => panic!("{:?}", other),
    };
    assert!(matches!(&reply.replies[2], ServerMessage::PlayerList { players } if players.len() == 1));
    assert_eq!(reply.replies.len(), 3);
    assert!(reply.notice.unwrap().recipients.is_empty());
    let reply = rooms.lobby_message(&ClientMessage::JoinRoom { room_id: "main".to_string(), name: "Bob".to_string() });
    assert_eq!(reply.notice.unwrap().recipients, vec![1]);

    let reply = rooms.lobby_message(&ClientMessage::Rejoin { room_id: "main".to_string(), session_token: token.clone() });
    assert_eq!(reply.bound, Some(1));
    assert!(matches!(&reply.replies[0], ServerMessage::Rejoined { player_id: 1, session_token, .. } if *session_token == token));
    let reply = rooms.lobby_message(&ClientMessage::Rejoin { room_id: "main".to_string(), session_token: "zz".to_string() });
    assert!(matches!(&reply.replies[0], ServerMessage::RoomError { message } if message == "Invalid or expired session token"));
    assert_eq!(reply.bound, None);
}

#[test]
fn equity_counts_add_up() {
    let hands = vec![
        Hand(c(CardNumber::Ace, CardSuit::Spades), c(CardNumber::Ace, CardSuit::Hearts)),
        Hand(c(CardNumber::King, CardSuit::Spades), c(CardNumber::King, CardSuit::Hearts)),
        Hand(c(CardNumber::Seven, CardSuit::Clubs), c(CardNumber::Two, CardSuit::Diamonds)),
    ];
    let board = Board { flop: None, turn: None, river: None };
    let tally = equity_tally(&hands, &board, 500);
    assert_eq!(tally.trials, 500);
    assert_eq!(tally.ways.iter().sum::<u64>(), 500);
    for k in 0..3 {
        let column: u64 = tally.shares.iter().map(|row| row[k]).sum();
        assert_eq!(column, (k as u64 + 1) * tally.ways[k]);
    }
    let equities = calculate_equity_multi(&hands, &board, 500);
    assert_eq!(equities.len(), 3);
    let whole: f64 = equities
        .iter()
        .map(|e| e.shares.iter().enumerate().map(|(k, n)| *n as f64 / (k + 1) as f64).sum::<f64>() / e.trials as f64)
        .sum();
    assert!((whole - 1.0).abs() < 1e-9);
    assert!(equities[0].shares[0] > equities[2].shares[0]);

    let alone = calculate_equity_multi(&hands[..1].to_vec(), &board, 500);
    assert_eq!(alone.len(), 1);
    assert_eq!((alone[0].trials, alone[0].shares.clone()), (1, vec![1]));
    assert!(calculate_equity_multi(&Vec::new(), &board, 500).is_empty());
}

#[test]
fn equity_on_a_full_board_is_certain() {
    let hands = vec![
        Hand(c(CardNumber::Ace, CardSuit::Spades), c(CardNumber::Ace, CardSuit::Hearts)),
        Hand(c(CardNumber::King, CardSuit::Spades), c(CardNumber::King, CardSuit::Hearts)),
    ];
    let board = Board {
        flop: Some((
            c(CardNumber::King, CardSuit::Clubs),
            c(CardNumber::Two, CardSuit::Diamonds),
            c(CardNumber::Three, CardSuit::Clubs),
        )),
        turn: Some(c(CardNumber::Nine, CardSuit::Hearts)),
        river: Some(c(CardNumber::Jack, CardSuit::Diamonds)),
    };
    let equities = calculate_equity_multi(&hands, &board, 50);
    assert_eq!(equities[0].shares, vec![0, 0]);
    assert_eq!(equities[1].shares, vec![50, 0]);
    assert_eq!(round_leaders(&hands, &board), vec![1]);
    let tied = vec![
        Hand(c(CardNumber::Two, CardSuit::Spades), c(CardNumber::Four, CardSuit::Hearts)),
        Hand(c(CardNumber::Two, CardSuit::Hearts), c(CardNumber::Four, CardSuit::Spades)),
        Hand(c(CardNumber::Five, CardSuit::Hearts), c(CardNumber::Six, CardSuit::Spades)),
    ];
    let royal = Board {
        flop: Some((
            c(CardNumber::Ace, CardSuit::Clubs),
            c(CardNumber::King, CardSuit::Clubs),
            c(CardNumber::Queen, CardSuit::Clubs),
        )),
        turn: Some(c(CardNumber::Jack, CardSuit::Clubs)),
        river: Some(c(CardNumber::Ten, CardSuit::Clubs)),
    };
    assert_eq!(round_leaders(&tied, &royal), vec![0, 1, 2]);
    let equities = calculate_equity_multi(&tied, &royal, 9);
    assert!(equities.iter().all(|e| e.shares == vec![0, 0, 9] && e.trials == 9));

    let known = known_list(&hands, &board);
    assert_eq!(known.len(), 9);
    let deck = remaining_deck(&known);
    assert_eq!(deck.len(), 43);
    assert!(known.iter().all(|card| !deck.contains(card)));

    let mut tally = EquityTally::new(2);
    tally.record(&vec![1]);
    tally.record(&vec![0, 1]);
    tally.record(&vec![]);
    assert_eq!(tally.trials, 3);
    assert_eq!(tally.ways, vec![1, 1]);
    assert_eq!(tally.shares, vec![vec![0, 1], vec![1, 1]]);
    assert_eq!(tally.equity_of(1).shares, vec![1, 1]);
    tally.record_trial(&hands, &board, Vec::new());
    assert_eq!(tally.shares, vec![vec![0, 1], vec![2, 1]]);
}

#[test]
fn directory_reports_a_session_whose_player_is_gone() {
    let mut rooms = RoomDirectory::new();
    rooms.create_room("main", no_blinds(), 50).unwrap();
    rooms.join_room("main", "Alice".to_string()).unwrap();
    let bob = rooms.join_room("main", "Bob".to_string()).unwrap();
    rooms.rooms[0].game_state.remove_player(2);
    let text = token_to_text(bob.session_token);
    assert_eq!(rooms.rejoin_room("main", &text), Err(RoomError::SessionExpired));
    assert_eq!(rooms.rejoin_room("main", &text), Err(RoomError::InvalidToken));
}

#[test]
fn new_room_is_an_empty_lobby() {
    let blinds = BlindConfig { interval_secs: 120, increase_percent: 25 };
    let room = Room::new(blinds, 80);
    assert!(room.is_empty());
    assert!(room.connected.is_empty());
    assert!(room.sessions.is_empty() && room.player_sessions.is_empty() && room.disconnected_at.is_empty());
    assert_eq!(room.turn_counter, 0);
    assert_eq!(room.blind_config, blinds);
    let game = &room.game_state;
    assert_eq!(game.blind_config, blinds);
    assert_eq!(game.starting_bbs, 80);
    assert_eq!((game.small_blind, game.big_blind), (10, 20));
    assert_eq!(game.phase, GamePhase::Lobby);
    assert!(!game.game_started && !game.allow_late_entry);
    assert_eq!((game.next_player_id, game.hand_number, game.pot, game.host_id), (1, 0, 0, 0));
    assert!(game.players.is_empty() && game.player_order.is_empty());
}

#[test]
fn every_trial_has_a_leader_while_the_board_can_be_filled() {
    let hands = vec![
        Hand(c(CardNumber::Ace, CardSuit::Spades), c(CardNumber::King, CardSuit::Spades)),
        Hand(c(CardNumber::Ace, CardSuit::Hearts), c(CardNumber::King, CardSuit::Hearts)),
    ];
    for board in [
        Board { flop: None, turn: None, river: None },
        Board {
            flop: Some((c(CardNumber::Two, CardSuit::Clubs), c(CardNumber::Seven, CardSuit::Diamonds), c(CardNumber::Nine, CardSuit::Clubs))),
            turn: None,
            river: None,
        },
        Board {
            flop: Some((c(CardNumber::Two, CardSuit::Clubs), c(CardNumber::Seven, CardSuit::Diamonds), c(CardNumber::Nine, CardSuit::Clubs))),
            turn: Some(c(CardNumber::Four, CardSuit::Diamonds)),
            river: None,
        },
    ] {
        let tally = equity_tally(&hands, &board, 300);
        assert_eq!(tally.trials, 300);
        assert_eq!(tally.ways.iter().sum::<u64>(), 300);
        let shared: u64 = tally.shares.iter().map(|row| row[1]).sum();
        assert_eq!(shared, 2 * tally.ways[1]);
        assert!(tally.ways[1] > 0);
    }

    // With all 52 cards in the players' hands no board can be laid, and no trial has a leader.
    let deck = get_all_cards();
    let everybody: Vec<Hand> = (0..26).map(|i| Hand(deck[2 * i], deck[2 * i + 1])).collect();
    let tally = equity_tally(&everybody, &Board { flop: None, turn: None, river: None }, 3);
    assert_eq!(tally.trials, 3);
    assert_eq!(tally.ways.iter().sum::<u64>(), 0);
}

#[test]
fn reaping_the_last_player_removes_the_room() {
    let mut rooms = RoomDirectory::new();
    rooms.create_room("main", no_blinds(), 50).unwrap();
    rooms.create_room("side", no_blinds(), 50).unwrap();
    let alice = rooms.join_room("main", "Alice".to_string()).unwrap();
    rooms.join_room("main", "Bob".to_string()).unwrap();
    rooms.rooms[0].start_game(1);
    assert!(rooms.disconnect_player("main", 1).unwrap().held);
    let last = rooms.disconnect_player("main", 2).unwrap();
    assert!(last.held && !last.room_empty);
    assert_eq!(rooms.list_rooms(), vec!["main".to_string(), "side".to_string()]);

    // Before the grace period is over the reaper leaves everything as it is.
    assert!(rooms.reap_player("main", 1).is_none());
    assert_eq!(rooms.find("main"), Some(0));

    let long_ago = Instant::now().checked_sub(std::time::Duration::from_secs(SESSION_GRACE_SECS)).unwrap();
    rooms.rooms[0].disconnected_at.insert(1, long_ago);
    let reaped = rooms.reap_player("main", 1).unwrap();
    assert!(matches!(reaped.left.message, ServerMessage::PlayerLeft { player_id: 1 }));
    assert!(reaped.left.recipients.is_empty());
    assert!(reaped.room_empty);
    assert_eq!(rooms.list_rooms(), vec!["side".to_string()]);
    assert_eq!(rooms.find("main"), None);
    assert_eq!(rooms.rejoin_room("main", &token_to_text(alice.session_token)), Err(RoomError::NotFound));
    assert!(rooms.reap_player("main", 2).is_none());
}

#[test]
fn a_refused_rejoin_changes_no_room() {
    let mut rooms = RoomDirectory::new();
    rooms.create_room("main", no_blinds(), 50).unwrap();
    let alice = rooms.join_room("main", "Alice".to_string()).unwrap();
    for (room_id, token) in [("none", token_to_text(alice.session_token)), ("main", "nonsense".to_string()), ("main", token_to_text(alice.session_token ^ 1))] {
        let reply = rooms.lobby_message(&ClientMessage::Rejoin { room_id: room_id.to_string(), session_token: token });
        assert!(reply.bound.is_none() && reply.notice.is_none());
        assert!(matches!(reply.replies[..], [ServerMessage::RoomError { .. }]));
        assert_eq!(rooms.list_rooms(), vec!["main".to_string()]);
        assert_eq!(rooms.rooms[0].connected, vec![1]);
        assert_eq!(rooms.rooms[0].sessions.len(), 1);
        assert_eq!(rooms.rooms[0].game_state.player_order, vec![1]);
    }
}

#[test]
fn nobody_is_connected_twice() {
    let mut room = room_of(&["Alice", "Bob"]);
    let token = room.player_sessions[&1];
    assert_eq!(room.rejoin(token), Ok(1));
    assert_eq!(room.rejoin(token), Ok(1));
    assert_eq!(room.connected, vec![1, 2]);
    start_with(&mut room, get_all_cards());
    room.disconnect(1);
    assert_eq!(room.connected, vec![2]);
    assert_eq!(room.rejoin(token), Ok(1));
    assert_eq!(room.connected, vec![2, 1]);
}
