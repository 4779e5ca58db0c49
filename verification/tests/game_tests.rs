use std::time::{Duration, Instant};

use poker_core::cards::{get_all_cards, Card, CardNumber, CardSuit};
use poker_core::game::{ActionError, GamePhase, GameState, PlayerStatus, SeatFilter, TURN_TIMEOUT_SECS};
use poker_core::protocol::{card_to_info, BlindConfig, PlayerAction, ServerMessage};

fn c(rank: CardNumber, suit: CardSuit) -> Card {
    Card(rank, suit)
}

fn table(names: &[&str], starting_bbs: u32) -> GameState {
    let mut gs = GameState::new();
    gs.starting_bbs = starting_bbs;
    for name in names {
        gs.add_player(name.to_string());
    }
    gs.game_started = true;
    gs
}

fn chips(gs: &GameState, id: u32) -> u32 {
    gs.players[&id].chips
}

fn chips_in_play(gs: &GameState) -> u64 {
    gs.players.values().map(|p| p.chips as u64).sum::<u64>() + gs.pot as u64
}

/// A deck whose cards come off in the order given.
fn stacked(top: &[Card]) -> Vec<Card> {
    let mut deck: Vec<Card> = get_all_cards().into_iter().filter(|card| !top.contains(card)).collect();
    for card in top.iter().rev() {
        deck.push(*card);
    }
    deck
}

fn act(gs: &mut GameState, id: u32, action: PlayerAction, amount: u32) -> Vec<ServerMessage> {
    assert!(gs.chips_fit());
    assert!(gs.bets_in_range());
    let before = chips_in_play(gs);
    let pot = gs.pot;
    let msgs = gs.apply_action(id, action, amount).unwrap();
    assert_eq!(chips_in_play(gs), before);
    assert!(gs.pot >= pot);
    msgs
}

#[test]
fn new_table_has_the_default_settings() {
    let gs = GameState::new();
    assert_eq!(gs.player_count(), 0);
    assert_eq!(gs.next_player_id, 1);
    assert!(!gs.game_started);
    assert_eq!(gs.phase, GamePhase::Lobby);
    assert_eq!(gs.small_blind, 10);
    assert_eq!(gs.big_blind, 20);
    assert_eq!(gs.starting_bbs, 50);
    assert_eq!(gs.host_id, 0);
    assert_eq!(TURN_TIMEOUT_SECS, 30);
    assert_eq!(gs.current_player_id(), None);
    assert!(!gs.is_current_player_sitting_out());
}

#[test]
fn players_get_rising_ids_and_the_default_stack() {
    let mut gs = GameState::new();
    let alice = gs.add_player("Alice".to_string());
    let bob = gs.add_player_with_chips("Bob".to_string(), Some(250));
    assert_eq!((alice.id, alice.chips, alice.status), (1, 1000, PlayerStatus::Waiting));
    assert_eq!((bob.id, bob.chips), (2, 250));
    assert_eq!(alice.name, "Alice");
    assert_eq!(gs.player_order, vec![1, 2]);
    assert_eq!(gs.host_id, 1);
    assert_eq!(gs.player_count(), 2);
    assert_eq!(gs.players[&2].name, "Bob");
    gs.remove_player(1);
    assert_eq!(gs.player_order, vec![2]);
    assert_eq!(gs.player_count(), 1);
    let carol = gs.add_player("Carol".to_string());
    assert_eq!(carol.id, 3);
    assert_eq!(gs.host_id, 1);
}

#[test]
fn sitting_out_and_in() {
    let mut gs = table(&["Alice", "Bob"], 50);
    gs.set_sitting_out(2);
    assert!(gs.players[&2].sitting_out);
    gs.set_sitting_out(9);
    gs.set_sitting_in(2);
    assert!(!gs.players[&2].sitting_out);
    gs.current_player_index = 1;
    gs.set_sitting_out(2);
    assert!(gs.is_current_player_sitting_out());
    assert_eq!(gs.keep_seats(SeatFilter::SittingOut), vec![2]);
}

#[test]
fn heads_up_fold_before_the_flop() {
    let mut gs = table(&["Alice", "Bob"], 50);
    let msgs = gs.begin_hand(None, get_all_cards());
    assert_eq!(msgs.len(), 1);
    match &msgs[0] {
        ServerMessage::NewHand { hand_number, dealer_id, small_blind_id, big_blind_id, small_blind, big_blind } => {
            assert_eq!((*hand_number, *dealer_id, *small_blind_id, *big_blind_id), (1, 2, 1, 2));
            assert_eq!((*small_blind, *big_blind), (10, 20));
        }
        other => panic!("{:?}", other),
    }
    assert_eq!((chips(&gs, 1), chips(&gs, 2), gs.pot), (990, 980, 30));
    assert_eq!(gs.current_player_id(), Some(1));
    assert_eq!(gs.phase, GamePhase::PreFlop);
    assert!(gs.big_blind_option);
    assert_eq!(gs.deck.len(), 48);

    let msgs = act(&mut gs, 1, PlayerAction::Fold, 0);
    assert_eq!(msgs.len(), 2);
    assert!(matches!(msgs[0], ServerMessage::PlayerActed { player_id: 1, action: PlayerAction::Fold, amount: None }));
    assert!(matches!(msgs[1], ServerMessage::PotUpdate { pot: 30 }));
    assert_eq!(gs.active_player_count(), 1);

    let msgs = gs.resolve_hand();
    assert!(!msgs.iter().any(|m| matches!(m, ServerMessage::Showdown { .. })));
    match &msgs[0] {
        ServerMessage::RoundWinner { winners } => assert_eq!(winners, &vec![(2, 30, "Winner".to_string())]),
        other => panic!("{:?}", other),
    }
    assert_eq!((chips(&gs, 1), chips(&gs, 2), gs.pot), (990, 1010, 0));
    assert!(gs.game_started);

    gs.begin_hand(None, get_all_cards());
    assert_eq!(gs.dealer_index, 0);
    assert_eq!(gs.hand_number, 2);
    assert_eq!((chips(&gs, 1), chips(&gs, 2), gs.pot), (970, 1000, 30));
}

#[test]
fn three_way_hand_to_a_showdown_of_two() {
    let mut gs = table(&["A", "B", "C"], 25);
    gs.dealer_index = 2;
    let deck = stacked(&[
        // hole cards of A, B, C in seat order
        c(CardNumber::Ace, CardSuit::Spades),
        c(CardNumber::Ace, CardSuit::Hearts),
        c(CardNumber::King, CardSuit::Spades),
        c(CardNumber::King, CardSuit::Hearts),
        c(CardNumber::Seven, CardSuit::Clubs),
        c(CardNumber::Two, CardSuit::Diamonds),
        // flop, turn, river
        c(CardNumber::Three, CardSuit::Clubs),
        c(CardNumber::Eight, CardSuit::Diamonds),
        c(CardNumber::Jack, CardSuit::Clubs),
        c(CardNumber::Four, CardSuit::Hearts),
        c(CardNumber::Nine, CardSuit::Spades),
    ]);
    gs.begin_hand(None, deck);
    assert_eq!(gs.dealer_index, 0);
    assert_eq!(chips_in_play(&gs), 1500);
    assert_eq!(gs.players[&1].hole_cards, Some((c(CardNumber::Ace, CardSuit::Spades), c(CardNumber::Ace, CardSuit::Hearts))));
    assert_eq!(gs.current_player_id(), Some(1));

    act(&mut gs, 1, PlayerAction::Call, 0);
    assert!(!gs.is_betting_complete());
    act(&mut gs, 2, PlayerAction::Call, 0);
    assert!(!gs.is_betting_complete());
    act(&mut gs, 3, PlayerAction::Check, 0);
    assert!(gs.is_betting_complete());
    assert_eq!(gs.pot, 60);

    let msgs = gs.advance_phase();
    assert_eq!(gs.phase, GamePhase::Flop);
    match &msgs[0] {
        ServerMessage::CommunityCards { stage, cards } => {
            assert_eq!(stage, "flop");
            assert_eq!(
                cards,
                &vec![
                    card_to_info(&c(CardNumber::Three, CardSuit::Clubs)),
                    card_to_info(&c(CardNumber::Eight, CardSuit::Diamonds)),
                    card_to_info(&c(CardNumber::Jack, CardSuit::Clubs)),
                ]
            );
        }
        other => panic!("{:?}", other),
    }
    assert_eq!(gs.current_player_id(), Some(2));
    act(&mut gs, 2, PlayerAction::Check, 0);
    assert!(!gs.is_betting_complete());
    act(&mut gs, 3, PlayerAction::Check, 0);
    assert!(!gs.is_betting_complete());
    act(&mut gs, 1, PlayerAction::Check, 0);
    assert!(gs.is_betting_complete());

    gs.advance_phase();
    assert_eq!(gs.phase, GamePhase::Turn);
    assert_eq!(gs.community_cards.len(), 4);
    act(&mut gs, 2, PlayerAction::Raise, 50);
    act(&mut gs, 3, PlayerAction::Fold, 0);
    assert!(!gs.is_betting_complete());
    act(&mut gs, 1, PlayerAction::Call, 0);
    assert!(gs.is_betting_complete());
    assert_eq!((chips(&gs, 1), chips(&gs, 2), chips(&gs, 3), gs.pot), (430, 430, 480, 160));

    gs.advance_phase();
    assert_eq!(gs.phase, GamePhase::River);
    act(&mut gs, 2, PlayerAction::Raise, 200);
    assert_eq!(gs.current_player_id(), Some(1));
    act(&mut gs, 1, PlayerAction::AllIn, 0);
    assert_eq!(gs.players[&1].status, PlayerStatus::AllIn);
    assert_eq!(gs.current_bet, 430);
    let msgs = act(&mut gs, 2, PlayerAction::Call, 0);
    assert!(matches!(msgs[0], ServerMessage::PlayerActed { player_id: 2, action: PlayerAction::Call, amount: Some(230) }));
    assert_eq!(gs.players[&2].status, PlayerStatus::AllIn);
    assert_eq!((chips(&gs, 1), chips(&gs, 2), gs.pot), (0, 0, 1020));
    assert!(gs.is_betting_complete());
    assert!(gs.actionable_players().is_empty());
    assert_eq!(gs.active_player_count(), 2);

    let msgs = gs.resolve_hand();
    match &msgs[0] {
        ServerMessage::Showdown { hands } => {
            let shown: Vec<u32> = hands.iter().map(|h| h.0).collect();
            assert_eq!(shown, vec![1, 2]);
            assert_eq!(hands[0].2, "Pair");
            assert_eq!(hands[1].2, "Pair");
        }
        other => panic!("{:?}", other),
    }
    match &msgs[1] {
        ServerMessage::RoundWinner { winners } => assert_eq!(winners, &vec![(1, 1020, "Pair".to_string())]),
        other => panic!("{:?}", other),
    }
    assert!(msgs.iter().any(|m| matches!(m, ServerMessage::PlayerEliminated { player_id: 2 })));
    assert!(!msgs.iter().any(|m| matches!(m, ServerMessage::GameOver { .. })));
    assert_eq!(msgs.iter().filter(|m| matches!(m, ServerMessage::ChipUpdate { .. })).count(), 3);
    assert_eq!((chips(&gs, 1), chips(&gs, 2), chips(&gs, 3), gs.pot), (1020, 0, 480, 0));
    assert_eq!(chips_in_play(&gs), 1500);

    gs.begin_hand(None, get_all_cards());
    assert_eq!(gs.player_order, vec![1, 3]);
    assert_eq!(gs.players[&2].status, PlayerStatus::Out);
}

#[test]
fn split_pot_discards_the_remainder() {
    let mut gs = table(&["A", "B", "C"], 50);
    gs.begin_hand(None, get_all_cards());
    gs.community_cards = vec![
        c(CardNumber::Ace, CardSuit::Spades),
        c(CardNumber::King, CardSuit::Spades),
        c(CardNumber::Queen, CardSuit::Spades),
        c(CardNumber::Jack, CardSuit::Spades),
        c(CardNumber::Ten, CardSuit::Spades),
    ];
    for (id, a, b) in [(1, 2, 3), (2, 4, 5), (3, 6, 7)] {
        let p = gs.players.get_mut(&id).unwrap();
        p.hole_cards = Some((
            c(CardNumber::from_value(a), CardSuit::Hearts),
            c(CardNumber::from_value(b), CardSuit::Clubs),
        ));
        p.status = PlayerStatus::Active;
    }
    gs.players.get_mut(&3).unwrap().status = PlayerStatus::Folded;
    gs.phase = GamePhase::River;
    gs.pot = 31;
    let before = chips_in_play(&gs);
    let msgs = gs.resolve_hand();
    let winners = msgs
        .iter()
        .find_map(|m| match m {
            ServerMessage::RoundWinner { winners } => Some(winners.clone()),
            _ => None,
        })
        .unwrap();
    assert_eq!(winners, vec![(1, 15, "Royal Flush".to_string()), (2, 15, "Royal Flush".to_string())]);
    let awarded: u32 = winners.iter().map(|w| w.1).sum();
    assert_eq!(awarded, 31 - 1);
    assert_eq!(gs.pot, 0);
    assert_eq!(chips_in_play(&gs), before - 1);
}

#[test]
fn nobody_showing_pays_nobody_and_empties_the_pot() {
    let mut gs = table(&["A", "B"], 50);
    gs.pot = 40;
    let msgs = gs.resolve_hand();
    assert!(msgs.is_empty());
    assert_eq!(gs.pot, 0);
    assert_eq!((chips(&gs, 1), chips(&gs, 2)), (1000, 1000));
    assert!(gs.game_started);
}

#[test]
fn last_player_with_chips_ends_the_game() {
    let mut gs = table(&["A", "B"], 1);
    gs.begin_hand(None, get_all_cards());
    // A is the small blind with 20 chips, B the big blind and all-in.
    assert_eq!(gs.players[&2].status, PlayerStatus::AllIn);
    act(&mut gs, 1, PlayerAction::Fold, 0);
    let msgs = gs.resolve_hand();
    assert_eq!((chips(&gs, 1), chips(&gs, 2)), (10, 30));
    assert!(!msgs.iter().any(|m| matches!(m, ServerMessage::GameOver { .. })));

    let mut gs = table(&["A", "B"], 1);
    gs.players.get_mut(&1).unwrap().chips = 10;
    gs.begin_hand(None, get_all_cards());
    assert_eq!(gs.players[&1].status, PlayerStatus::AllIn);
    assert_eq!(gs.players[&2].status, PlayerStatus::AllIn);
    gs.community_cards = vec![
        c(CardNumber::Ace, CardSuit::Spades),
        c(CardNumber::King, CardSuit::Spades),
        c(CardNumber::Queen, CardSuit::Diamonds),
        c(CardNumber::Jack, CardSuit::Spades),
        c(CardNumber::Three, CardSuit::Hearts),
    ];
    gs.players.get_mut(&1).unwrap().hole_cards =
        Some((c(CardNumber::Ace, CardSuit::Hearts), c(CardNumber::Ace, CardSuit::Clubs)));
    gs.players.get_mut(&2).unwrap().hole_cards =
        Some((c(CardNumber::Two, CardSuit::Hearts), c(CardNumber::Seven, CardSuit::Clubs)));
    let msgs = gs.resolve_hand();
    assert_eq!((chips(&gs, 1), chips(&gs, 2)), (30, 0));
    match msgs.last().unwrap() {
        ServerMessage::GameOver { winner_id, winner_name } => {
            assert_eq!(*winner_id, 1);
            assert_eq!(winner_name, "A");
        }
        other => panic!("{:?}", other),
    }
    assert!(!gs.game_started);
    assert_eq!(gs.phase, GamePhase::Lobby);
}

#[test]
fn short_small_blind_is_all_in_and_the_big_blind_keeps_its_option() {
    let mut gs = table(&["A", "B", "C"], 50);
    gs.players.get_mut(&3).unwrap().chips = 5;
    // The button goes to B, so that C posts the small blind and A the big.
    gs.begin_hand(None, get_all_cards());
    assert_eq!(gs.dealer_index, 1);
    let small = &gs.players[&3];
    assert_eq!((small.chips, small.current_bet, small.status), (0, 5, PlayerStatus::AllIn));
    let big = &gs.players[&1];
    assert_eq!((big.chips, big.current_bet, big.status), (980, 20, PlayerStatus::Active));
    assert_eq!(gs.pot, 25);
    assert_eq!(gs.current_bet, 20);
    assert!(gs.big_blind_option);
    assert_eq!(gs.last_raiser_index, Some(0));
    assert!(small.hole_cards.is_some());
    // B calls; the big blind still has its option, so the round goes on.
    assert_eq!(gs.current_player_id(), Some(2));
    act(&mut gs, 2, PlayerAction::Call, 0);
    assert_eq!(gs.current_player_id(), Some(1));
    assert!(!gs.is_betting_complete());
    act(&mut gs, 1, PlayerAction::Check, 0);
    assert!(!gs.big_blind_option);
    assert_eq!(gs.last_raiser_index, None);
    assert!(gs.is_betting_complete());
}

#[test]
fn raise_of_the_whole_stack_is_legal_below_the_minimum() {
    let mut gs = table(&["A", "B", "C"], 50);
    gs.players.get_mut(&2).unwrap().chips = 30;
    gs.dealer_index = 2;
    gs.begin_hand(None, get_all_cards());
    // A is under the gun; B is the small blind with 20 left behind.
    act(&mut gs, 1, PlayerAction::Call, 0);
    assert_eq!(gs.current_player_id(), Some(2));
    assert_eq!(gs.min_raise, 20);
    assert_eq!(gs.apply_action(2, PlayerAction::Raise, 5).err(), Some(ActionError::BelowMinRaise { min_raise: 20 }));
    let msgs = act(&mut gs, 2, PlayerAction::Raise, 10);
    assert!(matches!(msgs[0], ServerMessage::PlayerActed { player_id: 2, action: PlayerAction::Raise, amount: Some(20) }));
    let b = &gs.players[&2];
    assert_eq!((b.chips, b.current_bet, b.status), (0, 30, PlayerStatus::AllIn));
    assert_eq!(gs.current_bet, 30);
    assert_eq!(gs.min_raise, 20);
    assert_eq!(gs.last_raiser_index, Some(1));
    assert!(!gs.big_blind_option);
}

#[test]
fn refused_actions_change_nothing() {
    let mut gs = table(&["A", "B", "C"], 50);
    gs.game_started = false;
    assert_eq!(gs.apply_action(1, PlayerAction::Fold, 0).err(), Some(ActionError::GameNotStarted));
    gs.game_started = true;
    gs.dealer_index = 2;
    gs.begin_hand(None, get_all_cards());
    let snapshot = |gs: &GameState| {
        (
            gs.pot,
            gs.current_bet,
            gs.current_player_index,
            gs.has_acted_this_round,
            gs.last_raiser_index,
            gs.player_order.iter().map(|id| &gs.players[id]).map(|p| (p.id, p.chips, p.current_bet, p.status)).collect::<Vec<_>>(),
        )
    };
    let before = snapshot(&gs);
    assert_eq!(gs.apply_action(2, PlayerAction::Call, 0).err(), Some(ActionError::NotYourTurn));
    assert_eq!(gs.apply_action(7, PlayerAction::Call, 0).err(), Some(ActionError::NotYourTurn));
    assert!(!gs.valid_actions(1).contains(&PlayerAction::Check));
    assert_eq!(gs.apply_action(1, PlayerAction::Check, 0).err(), Some(ActionError::InvalidAction));
    assert_eq!(gs.apply_action(1, PlayerAction::Raise, 990).err(), Some(ActionError::NotEnoughChips { have: 1000, need: 1010 }));
    assert_eq!(gs.apply_action(1, PlayerAction::Raise, u32::MAX).err(), Some(ActionError::NotEnoughChips { have: 1000, need: 20 + u32::MAX as u64 }));
    assert_eq!(gs.apply_action(1, PlayerAction::Raise, 19).err(), Some(ActionError::BelowMinRaise { min_raise: 20 }));
    assert_eq!(snapshot(&gs), before);
    assert_eq!(gs.check_action(1, PlayerAction::Raise, 20), Ok(40));
    assert_eq!(gs.check_action(1, PlayerAction::AllIn, 0), Ok(1000));
}

#[test]
fn valid_actions_follow_the_stack() {
    let mut gs = table(&["A", "B", "C"], 50);
    gs.dealer_index = 2;
    gs.begin_hand(None, get_all_cards());
    let (fold, check, call, raise, all_in) =
        (PlayerAction::Fold, PlayerAction::Check, PlayerAction::Call, PlayerAction::Raise, PlayerAction::AllIn);
    assert_eq!(gs.valid_actions(1), vec![fold, call, raise, all_in]);
    assert_eq!(gs.valid_actions(3), vec![fold, check, raise, all_in]);
    assert_eq!(gs.valid_actions(9), vec![]);
    gs.players.get_mut(&1).unwrap().chips = 20;
    assert_eq!(gs.valid_actions(1), vec![fold, call, all_in]);
    gs.players.get_mut(&1).unwrap().chips = 7;
    assert_eq!(gs.valid_actions(1), vec![fold, all_in]);
    gs.players.get_mut(&1).unwrap().chips = 0;
    assert_eq!(gs.valid_actions(1), vec![fold]);
    gs.players.get_mut(&1).unwrap().status = PlayerStatus::Folded;
    assert_eq!(gs.valid_actions(1), vec![]);
}

#[test]
fn turn_skips_players_who_cannot_act() {
    let mut gs = table(&["A", "B", "C", "D"], 50);
    gs.begin_hand(None, get_all_cards());
    gs.players.get_mut(&2).unwrap().status = PlayerStatus::Folded;
    gs.players.get_mut(&3).unwrap().status = PlayerStatus::Out;
    gs.current_player_index = 0;
    gs.next_player();
    assert_eq!(gs.current_player_id(), Some(4));
    gs.next_player();
    assert_eq!(gs.current_player_id(), Some(1));
    gs.players.get_mut(&4).unwrap().status = PlayerStatus::AllIn;
    gs.next_player();
    assert_eq!(gs.current_player_id(), Some(1));
    gs.players.get_mut(&1).unwrap().status = PlayerStatus::Folded;
    gs.current_player_index = 2;
    gs.next_player();
    assert_eq!(gs.current_player_index, 2);
    assert_eq!(gs.actionable_players(), Vec::<u32>::new());
    assert_eq!(gs.active_player_count(), 1);
}

#[test]
fn streets_are_dealt_in_order() {
    let mut gs = table(&["A", "B"], 50);
    gs.begin_hand(None, get_all_cards());
    let deck = gs.deck.clone();
    let n = deck.len();
    let msgs = gs.advance_phase();
    assert_eq!(gs.phase, GamePhase::Flop);
    assert_eq!(gs.community_cards, vec![deck[n - 1], deck[n - 2], deck[n - 3]]);
    assert_eq!(msgs.len(), 1);
    assert_eq!(gs.current_bet, 0);
    assert!(gs.players.values().all(|p| p.current_bet == 0));
    assert_eq!(gs.first_actor_index, Some(gs.current_player_index));
    let msgs = gs.advance_phase();
    assert_eq!(gs.phase, GamePhase::Turn);
    assert_eq!(gs.community_cards.len(), 4);
    assert!(matches!(&msgs[0], ServerMessage::CommunityCards { stage, cards } if stage == "turn" && cards.len() == 4));
    let msgs = gs.advance_phase();
    assert_eq!(gs.phase, GamePhase::River);
    assert!(matches!(&msgs[0], ServerMessage::CommunityCards { stage, cards } if stage == "river" && cards.len() == 5));
    assert_eq!(gs.build_board().cards(), gs.community_cards);
    let msgs = gs.advance_phase();
    assert_eq!(gs.phase, GamePhase::Showdown);
    assert!(msgs.is_empty());
    assert!(gs.advance_phase().is_empty());
    assert_eq!(gs.phase, GamePhase::Showdown);
    assert_eq!(gs.community_cards.len(), 5);
    assert_eq!(gs.deal_card(), Some(deck[n - 6]));
}

#[test]
fn fewer_than_two_funded_seats_deal_no_hand() {
    let mut gs = table(&["A", "B"], 50);
    gs.players.get_mut(&2).unwrap().chips = 0;
    let msgs = gs.begin_hand(None, get_all_cards());
    assert!(msgs.is_empty());
    assert_eq!(gs.player_order, vec![1]);
    assert_eq!(gs.hand_number, 1);
    assert_eq!(gs.players[&2].status, PlayerStatus::Out);
    assert_eq!(gs.players[&1].hole_cards, None);
    assert_eq!(gs.pot, 0);
}

#[test]
fn blinds_rise_by_the_percentage_rounded_up() {
    let mut gs = table(&["A", "B"], 50);
    gs.blind_config = BlindConfig { interval_secs: 60, increase_percent: 25 };
    let now = Instant::now();
    let msgs = gs.begin_hand(Some(now), get_all_cards());
    assert!(matches!(msgs[0], ServerMessage::BlindsIncreased { small_blind: 13, big_blind: 25 }));
    assert!(matches!(msgs[1], ServerMessage::NewHand { small_blind: 13, big_blind: 25, .. }));
    assert_eq!((gs.small_blind, gs.big_blind), (13, 25));
    assert_eq!(gs.last_blind_increase, Some(now));
    assert_eq!(gs.pot, 38);
    gs.blind_config = BlindConfig { interval_secs: 60, increase_percent: 50 };
    gs.begin_hand(Some(now), get_all_cards());
    assert_eq!((gs.small_blind, gs.big_blind), (20, 38));
}

#[test]
fn start_new_hand_raises_the_blinds_once_the_interval_has_passed() {
    let mut gs = table(&["A", "B"], 50);
    gs.blind_config = BlindConfig { interval_secs: 3600, increase_percent: 50 };
    gs.last_blind_increase = Some(Instant::now());
    assert!(gs.can_start_hand(true, 52));
    let msgs = gs.start_new_hand();
    assert!(!msgs.iter().any(|m| matches!(m, ServerMessage::BlindsIncreased { .. })));
    assert_eq!((gs.small_blind, gs.big_blind), (10, 20));

    gs.blind_config = BlindConfig { interval_secs: 1, increase_percent: 50 };
    let earlier = Instant::now().checked_sub(Duration::from_secs(5)).unwrap();
    gs.last_blind_increase = Some(earlier);
    let msgs = gs.start_new_hand();
    assert!(matches!(msgs[0], ServerMessage::BlindsIncreased { small_blind: 15, big_blind: 30 }));
    assert!(gs.last_blind_increase.unwrap() > earlier);

    gs.blind_config = BlindConfig { interval_secs: 0, increase_percent: 50 };
    gs.start_new_hand();
    assert_eq!((gs.small_blind, gs.big_blind), (15, 30));
    gs.blind_config = BlindConfig { interval_secs: 1, increase_percent: 50 };
    gs.last_blind_increase = None;
    gs.start_new_hand();
    assert_eq!((gs.small_blind, gs.big_blind), (15, 30));
}

#[test]
fn new_deck_holds_each_card_once_in_a_shuffled_order() {
    let mut gs = GameState::new();
    let fresh = get_all_cards();
    let mut moved = false;
    for _ in 0..5 {
        gs.new_deck();
        assert_eq!(gs.deck.len(), 52);
        for card in &fresh {
            assert_eq!(gs.deck.iter().filter(|d| *d == card).count(), 1);
        }
        moved = moved || gs.deck != fresh;
    }
    assert!(moved);
    let top = *gs.deck.last().unwrap();
    assert_eq!(gs.deal_card(), Some(top));
    assert_eq!(gs.deck.len(), 51);
    gs.deck.clear();
    assert_eq!(gs.deal_card(), None);
}

#[test]
fn range_checks_see_what_does_not_fit() {
    let mut gs = table(&["A", "B"], 50);
    assert!(gs.chips_fit());
    assert!(gs.bets_in_range());
    assert!(gs.can_start_hand(false, 52));
    assert!(!gs.can_start_hand(false, 3));
    gs.players.get_mut(&1).unwrap().chips = u32::MAX;
    assert!(!gs.chips_fit());
    assert!(!gs.can_start_hand(false, 52));
    gs.players.get_mut(&2).unwrap().chips = 0;
    assert!(gs.chips_fit());
    gs.players.get_mut(&1).unwrap().current_bet = 1;
    assert!(!gs.bets_in_range());
    gs.pot = 1;
    assert!(!gs.chips_fit());
    gs.pot = 0;
    gs.hand_number = u32::MAX;
    assert!(!gs.can_start_hand(false, 52));
    let mut gs = table(&["A", "B"], 50);
    gs.big_blind = u32::MAX;
    gs.blind_config = BlindConfig { interval_secs: 1, increase_percent: 100 };
    assert!(gs.can_start_hand(false, 52));
    assert!(!gs.can_start_hand(true, 52));
}

#[test]
fn positions_count_from_the_dealer() {
    let mut gs = table(&["A", "B", "C"], 50);
    gs.dealer_index = 2;
    assert_eq!((gs.position_player(0), gs.position_player(1), gs.position_player(2)), (3, 1, 2));
    gs.dealer_index = 7;
    assert_eq!((gs.position_player(0), gs.position_player(1), gs.position_player(2)), (2, 3, 1));
    gs.remove_player(2);
    gs.remove_player(3);
    assert_eq!(gs.position_player(0), 0);
}

#[test]
fn blinds_rise_by_a_quarter_once_the_interval_has_passed() {
    let mut gs = table(&["A", "B"], 50);
    gs.blind_config = BlindConfig { interval_secs: 60, increase_percent: 25 };
    let began = Instant::now();
    gs.last_blind_increase = Some(began);
    assert!(!gs.blinds_due(Some(59)));
    assert!(gs.blinds_due(Some(60)));
    assert!(!gs.blinds_due(None));
    assert!(gs.rise_moment(Some(59), began).is_none());

    // Before the interval is over nothing rises.
    let now = Instant::now();
    assert!(gs.can_start_hand(gs.blinds_due(Some(59)), 52));
    let msgs = gs.begin_hand_after(Some(59), now, get_all_cards());
    assert_eq!(msgs.len(), 1);
    assert!(matches!(msgs[0], ServerMessage::NewHand { small_blind: 10, big_blind: 20, .. }));
    assert_eq!((gs.small_blind, gs.big_blind, gs.current_bet), (10, 20, 20));
    assert_eq!(gs.last_blind_increase, Some(began));

    // Once it is over both blinds rise, rounded up, and the table hears of it first.
    let later = Instant::now();
    assert!(gs.can_start_hand(gs.blinds_due(Some(60)), 52));
    let msgs = gs.begin_hand_after(Some(60), later, get_all_cards());
    assert_eq!(msgs.len(), 2);
    assert!(matches!(msgs[0], ServerMessage::BlindsIncreased { small_blind: 13, big_blind: 25 }));
    assert!(matches!(msgs[1], ServerMessage::NewHand { small_blind: 13, big_blind: 25, .. }));
    assert_eq!((gs.small_blind, gs.big_blind, gs.current_bet, gs.min_raise), (13, 25, 25, 25));
    assert_eq!(gs.pot, 38);
    assert_eq!(gs.last_blind_increase, Some(later));

    // Without a configured rise, or before the game began, the clock decides nothing.
    gs.last_blind_increase = None;
    assert!(!gs.blinds_due(Some(1_000_000)));
    gs.last_blind_increase = Some(later);
    gs.blind_config = BlindConfig { interval_secs: 60, increase_percent: 0 };
    assert!(!gs.blinds_due(Some(1_000_000)));
    gs.blind_config = BlindConfig { interval_secs: 0, increase_percent: 25 };
    assert!(!gs.blinds_due(Some(1_000_000)));
}

#[test]
fn the_clock_of_the_blinds_runs_from_the_last_rise() {
    let mut gs = table(&["A", "B"], 50);
    assert_eq!(gs.blind_clock(), None);
    gs.last_blind_increase = Some(Instant::now().checked_sub(Duration::from_secs(90)).unwrap());
    let elapsed = gs.blind_clock().unwrap();
    assert!(elapsed >= 90 && elapsed < 100);
    let (read, _, deck) = gs.draw_hand();
    assert!(read.unwrap() >= 90);
    assert_eq!(deck.len(), 52);
}

#[test]
fn a_new_hand_deals_every_funded_seat_different_cards() {
    let mut gs = table(&["A", "B", "C", "D"], 50);
    gs.players.get_mut(&3).unwrap().chips = 0;
    gs.players.get_mut(&4).unwrap().chips = 5;
    assert!(gs.can_start_hand(false, 52));
    gs.begin_hand(None, get_all_cards());
    assert_eq!(gs.player_order, vec![1, 2, 4]);
    let mut dealt: Vec<Card> = Vec::new();
    for id in [1, 2, 4] {
        let player = &gs.players[&id];
        assert!(matches!(player.status, PlayerStatus::Active | PlayerStatus::AllIn));
        let (first, second) = player.hole_cards.unwrap();
        dealt.push(first);
        dealt.push(second);
    }
    assert!(gs.players[&3].hole_cards.is_none());
    assert_eq!(gs.players[&3].status, PlayerStatus::Out);
    for (i, card) in dealt.iter().enumerate() {
        assert!(!dealt[i + 1..].contains(card));
        assert!(!gs.deck.contains(card));
    }
    assert_eq!(gs.deck.len(), 46);
    // The first player dealt gets the two cards at the end of the deck.
    let fresh = get_all_cards();
    assert!(dealt.contains(&fresh[51]) && dealt.contains(&fresh[50]) && dealt.contains(&fresh[46]));

    for _ in 0..5 {
        assert!(gs.can_start_hand(false, 52));
        gs.start_new_hand();
        let mut seen: Vec<Card> = Vec::new();
        for player in gs.players.values() {
            if let Some((first, second)) = player.hole_cards {
                assert!(!seen.contains(&first) && !seen.contains(&second) && first != second);
                seen.push(first);
                seen.push(second);
            }
        }
        assert_eq!(seen.len(), 2 * gs.player_order.len());
    }
}

#[test]
fn the_pot_is_empty_after_a_hand_that_nobody_is_left_to_win() {
    let mut gs = table(&["A", "B"], 50);
    assert!(gs.can_start_hand(false, 52));
    gs.begin_hand(None, get_all_cards());
    assert_eq!(gs.pot, 30);
    gs.remove_player(2);
    assert_eq!(gs.player_order, vec![1]);
    if gs.current_player_id() == Some(1) {
        act(&mut gs, 1, PlayerAction::Fold, 0);
    } else {
        gs.players.get_mut(&1).unwrap().status = PlayerStatus::Folded;
    }
    assert_eq!(gs.players[&1].status, PlayerStatus::Folded);
    assert!(gs.chips_fit());
    let msgs = gs.resolve_hand();
    assert!(msgs.is_empty());
    assert_eq!(gs.pot, 0);
    assert!(gs.game_started);

    // Whoever shows, the pot is empty afterwards.
    let mut gs = table(&["A", "B", "C"], 50);
    gs.begin_hand(None, get_all_cards());
    let first = gs.current_player_id().unwrap();
    act(&mut gs, first, PlayerAction::Fold, 0);
    assert!(gs.pot > 0);
    assert!(gs.chips_fit());
    let before = chips_in_play(&gs);
    let msgs = gs.resolve_hand();
    assert!(msgs.iter().any(|m| matches!(m, ServerMessage::RoundWinner { .. })));
    assert_eq!(gs.pot, 0);
    assert_eq!(chips_in_play(&gs), before);
}

#[test]
fn seats_stay_distinct_and_taken() {
    let mut gs = GameState::new();
    for name in ["A", "B", "C", "D"] {
        gs.add_player(name.to_string());
    }
    assert_eq!(gs.player_order, vec![1, 2, 3, 4]);
    gs.remove_player(2);
    gs.remove_player(2);
    assert_eq!(gs.player_order, vec![1, 3, 4]);
    let e = gs.add_player("E".to_string());
    assert_eq!(e.id, 5);
    assert_eq!(gs.player_order, vec![1, 3, 4, 5]);
    gs.players.get_mut(&3).unwrap().chips = 0;
    gs.game_started = true;
    assert!(gs.can_start_hand(false, 52));
    gs.begin_hand(None, get_all_cards());
    assert_eq!(gs.player_order, vec![1, 4, 5]);
    for (i, id) in gs.player_order.iter().enumerate() {
        assert!(gs.players.contains_key(id));
        assert!(*id < gs.next_player_id);
        assert!(!gs.player_order[i + 1..].contains(id));
    }
    assert!(gs.players.contains_key(&3));
}
