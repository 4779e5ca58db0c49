//! A connection before it is bound to a room: it may create rooms, and it
//! enters the game by joining a room or by coming back to one.

use vstd::prelude::*;
use vstd::string::StringExecFns;
use crate::directory::{RoomDirectory, RoomError};
use crate::game::{is_walk, keep, lemma_keep_members, GamePhase, Player, SeatFilter, Table};
use crate::protocol::{card_infos, cards_to_infos, message_views, ClientMessage, ServerMessage, ServerMessageView};
use crate::room::{player_infos, Joined, Outbound, OutboundView, Room, RoomView};
use crate::text::{parse_token_text, token_text, token_to_text};

verus! {

broadcast use vstd::std_specs::hash::group_hash_axioms;

/// The words in which a room error is answered.
pub open spec fn room_error_text(e: RoomError, room_id: Seq<char>) -> Seq<char> {
    match e {
        RoomError::EmptyId => "Room ID cannot be empty"@,
        RoomError::LongId => "Room ID must be fewer than 20 characters"@,
        RoomError::BadId => "Room ID must be alphanumeric"@,
        RoomError::Exists => "Room '"@ + room_id + "' already exists"@,
        RoomError::NotFound => "Room '"@ + room_id + "' not found"@,
        RoomError::GameInProgress => "Game already in progress"@,
        RoomError::InvalidToken => "Invalid or expired session token"@,
        RoomError::SessionExpired => "Session expired — player was removed"@,
    }
}

/// Writes the answer to a room error.
pub fn room_error_message(e: RoomError, room_id: &str) -> (s: String)
    ensures
        s@ == room_error_text(e, room_id@),
{
    match e {
        RoomError::EmptyId => "Room ID cannot be empty".to_string(),
        RoomError::LongId => "Room ID must be fewer than 20 characters".to_string(),
        RoomError::BadId => "Room ID must be alphanumeric".to_string(),
        RoomError::Exists => {
            let mut s = "Room '".to_string();
            s.append(room_id);
            s.append("' already exists");
            s
        },
        RoomError::NotFound => {
            let mut s = "Room '".to_string();
            s.append(room_id);
            s.append("' not found");
            s
        },
        RoomError::GameInProgress => "Game already in progress".to_string(),
        RoomError::InvalidToken => "Invalid or expired session token".to_string(),
        RoomError::SessionExpired => "Session expired — player was removed".to_string(),
    }
}

/// The name of the street under which the board is replayed to somebody
/// who joins a running game.
pub open spec fn replay_stage(phase: GamePhase) -> Seq<char> {
    match phase {
        GamePhase::Turn => "turn"@,
        GamePhase::River => "river"@,
        _ => "flop"@,
    }
}

impl RoomView {
    /// The players who sit out, one notice for each, walked in the order
    /// `walk`.
    pub open spec fn sat_out_notices(self, walk: Seq<u32>) -> Seq<ServerMessageView> {
        let out = keep(self.game.players, walk, SeatFilter::SittingOut);
        Seq::new(out.len(), |i: int| ServerMessageView::PlayerSatOut { player_id: self.game.players[out[i]].id })
    }

    /// The state of a running game for somebody who joins it: that the
    /// game runs, the current hand, the board, the pot, and who sits out.
    pub open spec fn replay(self, walk: Seq<u32>) -> Seq<ServerMessageView> {
        let g = self.game;
        if !g.game_started {
            Seq::<ServerMessageView>::empty()
        } else {
            seq![ServerMessageView::GameStarted] + (if g.hand_number > 0 {
                seq![
                    ServerMessageView::NewHand {
                        hand_number: g.hand_number,
                        dealer_id: g.position_id(0),
                        small_blind_id: g.position_id(1),
                        big_blind_id: g.position_id(2),
                        small_blind: g.small_blind,
                        big_blind: g.big_blind,
                    },
                ]
            } else {
                Seq::<ServerMessageView>::empty()
            }) + (if g.community_cards.len() > 0 {
                seq![
                    ServerMessageView::CommunityCards { stage: replay_stage(g.phase), cards: card_infos(g.community_cards) },
                ]
            } else {
                Seq::<ServerMessageView>::empty()
            }) + seq![ServerMessageView::PotUpdate { pot: g.pot }] + self.sat_out_notices(walk)
        }
    }

    /// What somebody who has joined is told: the room, their seat and
    /// session, the players, and the state of the game where it runs.
    pub open spec fn join_replies(
        self,
        walk: Seq<u32>,
        room_id: Seq<char>,
        player_id: u32,
        token: u128,
        player_count: usize,
    ) -> Seq<ServerMessageView> {
        let g = self.game;
        seq![
            ServerMessageView::RoomJoined { room_id, blind_config: self.blind_config },
            ServerMessageView::JoinedGame {
                player_id,
                chips: if g.players.contains_key(player_id) {
                    g.players[player_id].chips
                } else {
                    0
                },
                player_count,
                session_token: token_text(token),
                is_host: g.host_id == player_id,
                allow_late_entry: g.allow_late_entry,
            },
            ServerMessageView::PlayerList { players: player_infos(g.players, walk) },
        ] + self.replay(walk)
    }
}

impl Room {
    /// The state of a running game for somebody who joins it.
    pub fn replay(&self, walk: &Vec<u32>) -> (msgs: Vec<ServerMessage>)
        ensures
            message_views(msgs@) == self@.replay(walk@),
    {
        let gs = &self.game_state;
        let mut msgs: Vec<ServerMessage> = Vec::new();
        if !gs.game_started {
            proof {
                assert(message_views(msgs@) =~= self@.replay(walk@));
            }
            return msgs;
        }
        msgs.push(ServerMessage::GameStarted);
        if gs.hand_number > 0 {
            msgs.push(
                ServerMessage::NewHand {
                    hand_number: gs.hand_number,
                    dealer_id: gs.position_player(0),
                    small_blind_id: gs.position_player(1),
                    big_blind_id: gs.position_player(2),
                    small_blind: gs.small_blind,
                    big_blind: gs.big_blind,
                },
            );
        }
        if gs.community_cards.len() > 0 {
            let stage = match gs.phase {
                GamePhase::Turn => "turn".to_string(),
                GamePhase::River => "river".to_string(),
                _ => "flop".to_string(),
            };
            msgs.push(ServerMessage::CommunityCards { stage, cards: cards_to_infos(&gs.community_cards) });
        }
        msgs.push(ServerMessage::PotUpdate { pot: gs.pot });
        let ghost head = message_views(msgs@);
        let out = gs.keep_ids(walk, SeatFilter::SittingOut);
        let mut i: usize = 0;
        proof {
            lemma_keep_members(self@.game.players, walk@, SeatFilter::SittingOut);
        }
        let ghost base = msgs@.len();
        while i < out.len()
            invariant
                i <= out.len(),
                out@ == keep(self@.game.players, walk@, SeatFilter::SittingOut),
                forall|k: int|
                    0 <= k < out@.len() ==> SeatFilter::SittingOut.accepts(self@.game.players, #[trigger] out@[k]),
                msgs@.len() == base + i,
                message_views(msgs@).take(base as int) == head,
                forall|k: int|
                    0 <= k < i ==> (#[trigger] msgs@[base + k])@ == (ServerMessageView::PlayerSatOut {
                        player_id: self@.game.players[out@[k]].id,
                    }),
            decreases out.len() - i,
        {
            let id: u32 = out[i];
            assert(SeatFilter::SittingOut.accepts(self@.game.players, out@[i as int]));
            let ghost before = msgs@;
            match self.game_state.players.get(&id) {
                Some(p) => {
                    msgs.push(ServerMessage::PlayerSatOut { player_id: p.id });
                },
                None => {
                    proof {
                        assert(false);
                    }
                },
            }
            proof {
                assert(message_views(msgs@).take(base as int) =~= message_views(before).take(base as int));
                assert forall|k: int| 0 <= k < i + 1 implies (#[trigger] msgs@[base + k])@ == (
                ServerMessageView::PlayerSatOut { player_id: self@.game.players[out@[k]].id }) by {
                    if k < i {
                        assert(msgs@[base + k] == before[base + k]);
                    }
                }
            }
            i = i + 1;
        }
        proof {
            assert(message_views(msgs@) =~= head + self@.sat_out_notices(walk@)) by {
                let all = message_views(msgs@);
                let tail = self@.sat_out_notices(walk@);
                assert(all.len() == head.len() + tail.len());
                assert forall|k: int| 0 <= k < all.len() implies all[k] == (head + tail)[k] by {
                    if k < base {
                        assert(all.take(base as int)[k] == all[k]);
                    } else {
                        assert(msgs@[base + (k - base)]@ == tail[k - base]);
                    }
                }
            }
            assert(head =~= seq![ServerMessageView::GameStarted] + (if self@.game.hand_number > 0 {
                seq![
                    ServerMessageView::NewHand {
                        hand_number: self@.game.hand_number,
                        dealer_id: self@.game.position_id(0),
                        small_blind_id: self@.game.position_id(1),
                        big_blind_id: self@.game.position_id(2),
                        small_blind: self@.game.small_blind,
                        big_blind: self@.game.big_blind,
                    },
                ]
            } else {
                Seq::<ServerMessageView>::empty()
            }) + (if self@.game.community_cards.len() > 0 {
                seq![
                    ServerMessageView::CommunityCards {
                        stage: replay_stage(self@.game.phase),
                        cards: card_infos(self@.game.community_cards),
                    },
                ]
            } else {
                Seq::<ServerMessageView>::empty()
            }) + seq![ServerMessageView::PotUpdate { pot: self@.game.pot }]);
        }
        msgs
    }

    /// What somebody who has joined is told, with the players walked in
    /// the order `walk`.
    pub fn join_replies_in(&self, walk: &Vec<u32>, room_id: &str, player_id: u32, token: u128, player_count: usize) -> (msgs:
        Vec<ServerMessage>)
        requires
            is_walk(walk@, self@.game.players),
        ensures
            message_views(msgs@) == self@.join_replies(walk@, room_id@, player_id, token, player_count),
    {
        let gs = &self.game_state;
        let chips: u32 = match gs.players.get(&player_id) {
            Some(p) => p.chips,
            None => 0,
        };
        let mut msgs: Vec<ServerMessage> = Vec::new();
        msgs.push(ServerMessage::RoomJoined { room_id: String::from_str(room_id), blind_config: self.blind_config });
        msgs.push(
            ServerMessage::JoinedGame {
                player_id,
                chips,
                player_count,
                session_token: token_to_text(token),
                is_host: gs.host_id == player_id,
                allow_late_entry: gs.allow_late_entry,
            },
        );
        msgs.push(ServerMessage::PlayerList { players: gs.player_list(walk) });
        let ghost head = message_views(msgs@);
        let mut rest = self.replay(walk);
        let ghost tail = message_views(rest@);
        msgs.append(&mut rest);
        proof {
            assert(message_views(msgs@) =~= head + tail);
            assert(head =~= seq![
                ServerMessageView::RoomJoined { room_id: room_id@, blind_config: self@.blind_config },
                ServerMessageView::JoinedGame {
                    player_id,
                    chips: if self@.game.players.contains_key(player_id) {
                        self@.game.players[player_id].chips
                    } else {
                        0
                    },
                    player_count,
                    session_token: token_text(token),
                    is_host: self@.game.host_id == player_id,
                    allow_late_entry: self@.game.allow_late_entry,
                },
                ServerMessageView::PlayerList { players: player_infos(self@.game.players, walk@) },
            ]);
        }
        msgs
    }

    /// What somebody who has joined is told.
    pub fn join_replies(&self, room_id: &str, joined: &Joined) -> (msgs: Vec<ServerMessage>)
        ensures
            exists|walk: Seq<u32>|
                #![trigger is_walk(walk, self@.game.players)]
                is_walk(walk, self@.game.players) && message_views(msgs@) == self@.join_replies(
                    walk,
                    room_id@,
                    joined.player_id,
                    joined.session_token,
                    joined.player_count,
                ),
    {
        let walk = self.game_state.player_ids();
        let msgs = self.join_replies_in(&walk, room_id, joined.player_id, joined.session_token, joined.player_count);
        proof {
            assert(is_walk(walk@, self@.game.players));
        }
        msgs
    }
}

/// What a connection that is bound to no room gets for a message, and the
/// room and player that it is bound to from then on.
#[derive(Debug)]
pub struct LobbyReply {
    /// The answers for the connection itself.
    pub replies: Vec<ServerMessage>,
    /// The news for the players of the room.
    pub notice: Option<Outbound>,
    /// The player as whom the connection takes part in the room from now
    /// on.
    pub bound: Option<u32>,
}

impl RoomDirectory {
    /// Handles a message of a connection that is bound to no room yet: it
    /// may create a room, join one, come back to one, or ping; anything
    /// else is refused.
    pub fn lobby_message(&mut self, msg: &ClientMessage) -> (r: LobbyReply)
        requires
            old(self).wf(),
            msg matches ClientMessage::JoinRoom { room_id, .. } ==> (old(self).has_room(room_id@) ==> old(self).room(
                room_id@,
            ).can_join()),
        ensures
            final(self).wf(),
            match *msg {
                ClientMessage::CreateRoom { room_id, blind_config, starting_bbs } => {
                    &&& r.bound is None
                    &&& r.notice is None
                    &&& match old(self).create_error(room_id@) {
                        Some(e) => *final(self) == *old(self) && message_views(r.replies@) == seq![
                            ServerMessageView::RoomError { message: room_error_text(e, room_id@) },
                        ],
                        None => {
                            &&& final(self).room_ids() == old(self).room_ids().push(room_id@)
                            &&& final(self).rooms@.len() == old(self).rooms@.len() + 1
                            &&& forall|i: int|
                                0 <= i < old(self).rooms@.len() ==> final(self).rooms@[i] == old(self).rooms@[i]
                            &&& final(self).rooms@.last()@ == RoomView::fresh(blind_config, starting_bbs)
                            &&& message_views(r.replies@) == seq![ServerMessageView::RoomCreated { room_id: room_id@ }]
                        },
                    }
                },
                ClientMessage::JoinRoom { room_id, name } => match old(self).join_error(room_id@) {
                    Some(e) => *final(self) == *old(self) && r.bound is None && r.notice is None && message_views(
                        r.replies@,
                    ) == seq![ServerMessageView::RoomError { message: room_error_text(e, room_id@) }],
                    None => {
                        &&& r.bound == Some(old(self).room(room_id@).game.next_player_id)
                        &&& final(self).has_room(room_id@)
                        &&& final(self).changed_at(
                            *old(self),
                            old(self).position(room_id@),
                            final(self).room(room_id@),
                        )
                        &&& r.notice matches Some(notice) && notice@ == final(self).room(room_id@).to_others(
                            r.bound->Some_0,
                            ServerMessageView::PlayerJoined { player_id: r.bound->Some_0, name: name@ },
                        )
                        &&& exists|token: u128, walk: Seq<u32>|
                            #![trigger old(self).room(room_id@).after_join(name, token), is_walk(walk, final(self).room(room_id@).game.players)]
                            {
                                &&& final(self).room(room_id@) == old(self).room(room_id@).after_join(name, token)
                                &&& is_walk(walk, final(self).room(room_id@).game.players)
                                &&& message_views(r.replies@) == final(self).room(room_id@).join_replies(
                                    walk,
                                    room_id@,
                                    r.bound->Some_0,
                                    token,
                                    final(self).room(room_id@).game.players.len() as usize,
                                )
                            }
                    },
                },
                ClientMessage::Rejoin { room_id, session_token } => match old(self).rejoin_error(
                    room_id@,
                    session_token@,
                ) {
                    Some(e) => {
                        &&& r.bound is None
                        &&& r.notice is None
                        &&& message_views(r.replies@) == seq![
                            ServerMessageView::RoomError { message: room_error_text(e, room_id@) },
                        ]
                        &&& !old(self).has_room(room_id@) || parse_token_text(session_token@) is None ==> *final(self)
                            == *old(self)
                        &&& old(self).has_room(room_id@) && parse_token_text(session_token@) is Some
                            ==> final(self).changed_at(
                            *old(self),
                            old(self).position(room_id@),
                            old(self).room(room_id@).after_rejoin(parse_token_text(session_token@)->Some_0),
                        )
                    },
                    None => {
                        &&& r.bound == Some(
                            old(self).room(room_id@).sessions[parse_token_text(session_token@)->Some_0],
                        )
                        &&& r.notice is None
                        &&& final(self).has_room(room_id@)
                        &&& final(self).changed_at(
                            *old(self),
                            old(self).position(room_id@),
                            old(self).room(room_id@).after_rejoin(parse_token_text(session_token@)->Some_0),
                        )
                        &&& exists|walk: Seq<u32>|
                            #![trigger is_walk(walk, final(self).room(room_id@).game.players)]
                            is_walk(walk, final(self).room(room_id@).game.players) && message_views(r.replies@) == seq![
                                final(self).room(room_id@).rejoin_snapshot(
                                    walk,
                                    room_id@,
                                    r.bound->Some_0,
                                    session_token@,
                                ),
                            ]
                    },
                },
                ClientMessage::Ping => *final(self) == *old(self) && r.bound is None && r.notice is None
                    && message_views(r.replies@) == seq![ServerMessageView::Pong],
                _ => *final(self) == *old(self) && r.bound is None && r.notice is None && message_views(r.replies@)
                    == seq![ServerMessageView::Error { message: "Must create or join a room first"@ }],
            },
            old(self).rooms_wf() ==> final(self).rooms_wf(),
    {
        let mut replies: Vec<ServerMessage> = Vec::new();
        match msg {
            ClientMessage::CreateRoom { room_id, blind_config, starting_bbs } => {
                match self.create_room(room_id.as_str(), *blind_config, *starting_bbs) {
                    Ok(()) => {
                        replies.push(ServerMessage::RoomCreated { room_id: room_id.clone() });
                        proof {
                            assert(message_views(replies@) =~= seq![ServerMessageView::RoomCreated { room_id: room_id@ }]);
                        }
                    },
                    Err(e) => {
                        replies.push(ServerMessage::RoomError { message: room_error_message(e, room_id.as_str()) });
                        proof {
                            assert(message_views(replies@) =~= seq![
                                ServerMessageView::RoomError { message: room_error_text(e, room_id@) },
                            ]);
                        }
                    },
                }
                LobbyReply { replies, notice: None, bound: None }
            },
            ClientMessage::JoinRoom { room_id, name } => {
                match self.join_room(room_id.as_str(), name.clone()) {
                    Ok(joined) => {
                        let at: usize = match self.find(room_id.as_str()) {
                            Some(i) => i,
                            None => {
                                proof {
                                    assert(self.room_ids() =~= old(self).room_ids());
                                    assert(false);
                                }
                                return LobbyReply { replies, notice: None, bound: None };
                            },
                        };
                        proof {
                            assert(self.room_ids() =~= old(self).room_ids());
                            assert(self.room_views()[at as int] == self.rooms@[at as int]@);
                        }
                        let replies = self.rooms[at].join_replies(room_id.as_str(), &joined);
                        let bound = Some(joined.player_id);
                        proof {
                            let token = joined.session_token;
                            let walk = choose|walk: Seq<u32>|
                                #![trigger is_walk(walk, self.rooms@[at as int]@.game.players)]
                                is_walk(walk, self.rooms@[at as int]@.game.players) && message_views(replies@)
                                    == self.rooms@[at as int]@.join_replies(
                                    walk,
                                    room_id@,
                                    joined.player_id,
                                    joined.session_token,
                                    joined.player_count,
                                );
                            assert(self.room(room_id@) == old(self).room(room_id@).after_join(*name, token));
                            assert(is_walk(walk, self.room(room_id@).game.players));
                        }
                        LobbyReply { replies, notice: Some(joined.notice), bound }
                    },
                    Err(e) => {
                        replies.push(ServerMessage::RoomError { message: room_error_message(e, room_id.as_str()) });
                        proof {
                            assert(message_views(replies@) =~= seq![
                                ServerMessageView::RoomError { message: room_error_text(e, room_id@) },
                            ]);
                        }
                        LobbyReply { replies, notice: None, bound: None }
                    },
                }
            },
            ClientMessage::Rejoin { room_id, session_token } => {
                match self.rejoin_room(room_id.as_str(), session_token.as_str()) {
                    Ok(player_id) => {
                        let at: usize = match self.find(room_id.as_str()) {
                            Some(i) => i,
                            None => {
                                proof {
                                    assert(self.room_ids() =~= old(self).room_ids());
                                    assert(false);
                                }
                                return LobbyReply { replies, notice: None, bound: None };
                            },
                        };
                        proof {
                            assert(self.room_ids() =~= old(self).room_ids());
                            assert(self.room_views()[at as int] == self.rooms@[at as int]@);
                        }
                        let snapshot = self.rooms[at].build_rejoin_snapshot(
                            room_id.as_str(),
                            player_id,
                            session_token.as_str(),
                        );
                        replies.push(snapshot);
                        proof {
                            let walk = choose|walk: Seq<u32>|
                                is_walk(walk, self.rooms@[at as int]@.game.players) && snapshot@
                                    == self.rooms@[at as int]@.rejoin_snapshot(
                                    walk,
                                    room_id@,
                                    player_id,
                                    session_token@,
                                );
                            assert(is_walk(walk, self.room(room_id@).game.players));
                            assert(message_views(replies@) =~= seq![
                                self.room(room_id@).rejoin_snapshot(walk, room_id@, player_id, session_token@),
                            ]);
                        }
                        LobbyReply { replies, notice: None, bound: Some(player_id) }
                    },
                    Err(e) => {
                        replies.push(ServerMessage::RoomError { message: room_error_message(e, room_id.as_str()) });
                        proof {
                            assert(message_views(replies@) =~= seq![
                                ServerMessageView::RoomError { message: room_error_text(e, room_id@) },
                            ]);
                        }
                        LobbyReply { replies, notice: None, bound: None }
                    },
                }
            },
            ClientMessage::Ping => {
                replies.push(ServerMessage::Pong);
                proof {
                    assert(message_views(replies@) =~= seq![ServerMessageView::Pong]);
                }
                LobbyReply { replies, notice: None, bound: None }
            },
            _ => {
                replies.push(ServerMessage::Error { message: "Must create or join a room first".to_string() });
                proof {
                    assert(message_views(replies@) =~= seq![
                        ServerMessageView::Error { message: "Must create or join a room first"@ },
                    ]);
                }
                LobbyReply { replies, notice: None, bound: None }
            },
        }
    }
}

} // verus!
